//! Source text addressed by UTF-8 byte offsets, as a syntax tree gives them.

use vstd::prelude::*;

verus! {

/// The number of bytes that UTF-8 takes for `c`.
pub open spec fn utf8_width(c: char) -> int {
    let u = c as u32;
    if u <= 0x7F {
        1
    } else if u <= 0x7FF {
        2
    } else if u <= 0xFFFF {
        3
    } else {
        4
    }
}

/// The number of bytes that UTF-8 takes for `s`.
pub open spec fn utf8_len(s: Seq<char>) -> int
    decreases s.len(),
{
    if s.len() == 0 {
        0
    } else {
        utf8_width(s[0]) + utf8_len(s.drop_first())
    }
}

/// The byte offset at which the `k`-th character of `s` starts.
pub open spec fn byte_start(s: Seq<char>, k: int) -> int {
    utf8_len(s.take(k))
}

/// The number of characters of `s` that start before byte offset `b`: the
/// character position of `b` when `b` lies on a character boundary.
pub open spec fn char_index(s: Seq<char>, b: int) -> int
    decreases s.len(),
{
    if s.len() == 0 {
        0
    } else if byte_start(s, s.len() - 1) < b {
        s.len() as int
    } else {
        char_index(s.drop_last(), b)
    }
}

/// The text of `s` between byte offsets `a` and `b`.
pub open spec fn byte_slice(s: Seq<char>, a: int, b: int) -> Seq<char> {
    let i = char_index(s, a);
    let j = char_index(s, b);
    if i <= j {
        s.subrange(i, j)
    } else {
        Seq::empty()
    }
}

proof fn lemma_utf8_len_concat(a: Seq<char>, b: Seq<char>)
    ensures
        utf8_len(a + b) == utf8_len(a) + utf8_len(b),
    decreases a.len(),
{
    if a.len() == 0 {
        assert(a + b =~= b);
    } else {
        assert((a + b).drop_first() =~= a.drop_first() + b);
        lemma_utf8_len_concat(a.drop_first(), b);
    }
}

proof fn lemma_utf8_len_nonneg(s: Seq<char>)
    ensures
        utf8_len(s) >= s.len(),
    decreases s.len(),
{
    if s.len() > 0 {
        lemma_utf8_len_nonneg(s.drop_first());
    }
}

proof fn lemma_byte_start_step(s: Seq<char>, k: int)
    requires
        0 <= k < s.len(),
    ensures
        byte_start(s, k + 1) == byte_start(s, k) + utf8_width(s[k]),
{
    assert(s.take(k + 1) =~= s.take(k) + seq![s[k]]);
    lemma_utf8_len_concat(s.take(k), seq![s[k]]);
    assert(seq![s[k]].drop_first() =~= Seq::<char>::empty());
    assert(utf8_len(seq![s[k]]) == utf8_width(s[k]) + utf8_len(Seq::<char>::empty()));
}

proof fn lemma_byte_start_mono(s: Seq<char>, i: int, j: int)
    requires
        0 <= i <= j <= s.len(),
    ensures
        byte_start(s, i) + (j - i) <= byte_start(s, j),
{
    assert(s.take(j) =~= s.take(i) + s.subrange(i, j));
    lemma_utf8_len_concat(s.take(i), s.subrange(i, j));
    lemma_utf8_len_nonneg(s.subrange(i, j));
}

proof fn lemma_utf8_len_encode(s: Seq<char>)
    ensures
        utf8_len(s) == vstd::utf8::encode_utf8(s).len(),
    decreases s.len(),
{
    if s.len() > 0 {
        lemma_utf8_len_encode(s.drop_first());
        let c = s[0];
        vstd::utf8::char_is_scalar(c);
    }
}

proof fn lemma_char_index(s: Seq<char>, b: int, k: int)
    requires
        0 <= k <= s.len(),
        k == 0 || byte_start(s, k - 1) < b,
        k == s.len() || byte_start(s, k) >= b,
    ensures
        char_index(s, b) == k,
    decreases s.len(),
{
    if s.len() > 0 && k < s.len() {
        lemma_byte_start_mono(s, k, s.len() - 1);
        let t = s.drop_last();
        assert forall|m: int| 0 <= m <= t.len() implies byte_start(t, m) == byte_start(s, m) by {
            assert(t.take(m) =~= s.take(m));
        }
        lemma_char_index(t, b, k);
    }
}

/// A source text, with the byte offset at which each character starts.
pub struct SourceText {
    chars: Vec<char>,
    starts: Vec<usize>,
}

impl SourceText {
    /// The characters of the text.
    pub closed spec fn text(&self) -> Seq<char> {
        self.chars@
    }

    /// The offsets are those of the text.
    pub closed spec fn wf(&self) -> bool {
        &&& self.starts@.len() == self.chars@.len() + 1
        &&& forall|k: int|
            0 <= k <= self.chars@.len() ==> #[trigger] self.starts@[k] == byte_start(self.chars@, k)
    }

    /// Reads `src` and records where each of its characters starts.
    pub fn new(src: &str) -> (r: Self)
        ensures
            r.wf(),
            r.text() == src@,
    {
        let chars = crate::text::chars_of(src);
        let total = src.as_bytes().len();
        proof {
            lemma_utf8_len_encode(src@);
            assert(src@.take(src@.len() as int) =~= src@);
        }
        let mut starts: Vec<usize> = Vec::new();
        starts.push(0);
        assert(chars@.take(0) =~= Seq::<char>::empty());
        let mut pos: usize = 0;
        let mut k: usize = 0;
        while k < chars.len()
            invariant
                chars@ == src@,
                total == utf8_len(src@),
                byte_start(chars@, chars@.len() as int) == total,
                k <= chars@.len(),
                starts@.len() == k + 1,
                pos == byte_start(chars@, k as int),
                forall|m: int| 0 <= m <= k ==> #[trigger] starts@[m] == byte_start(chars@, m),
            decreases chars@.len() - k,
        {
            let c = chars[k];
            let u = c as u32;
            let w: usize = if u <= 0x7F {
                1
            } else if u <= 0x7FF {
                2
            } else if u <= 0xFFFF {
                3
            } else {
                4
            };
            proof {
                lemma_byte_start_step(chars@, k as int);
                lemma_byte_start_mono(chars@, k + 1, chars@.len() as int);
            }
            pos = pos + w;
            starts.push(pos);
            k = k + 1;
        }
        SourceText { chars, starts }
    }

    /// The character position of byte offset `b`.
    pub fn char_index(&self, b: usize) -> (r: usize)
        requires
            self.wf(),
        ensures
            r == char_index(self.text(), b as int),
            r <= self.text().len(),
    {
        let n = self.chars.len();
        if n == 0 || self.starts[n - 1] < b {
            proof {
                if n > 0 {
                    lemma_char_index(self.chars@, b as int, n as int);
                }
            }
            return n;
        }
        // the answer k lies in [lo, hi]: lo == 0 or starts[lo-1] < b, and starts[hi] >= b
        let mut lo: usize = 0;
        let mut hi: usize = n - 1;
        while lo < hi
            invariant
                self.wf(),
                n == self.chars@.len(),
                lo <= hi < n,
                lo == 0 || self.starts@[lo - 1] < b,
                self.starts@[hi as int] >= b,
            decreases hi - lo,
        {
            let mid = lo + (hi - lo) / 2;
            if self.starts[mid] < b {
                lo = mid + 1;
            } else {
                hi = mid;
            }
        }
        proof {
            lemma_char_index(self.chars@, b as int, lo as int);
        }
        lo
    }

    /// The text between byte offsets `a` and `b`.
    pub fn slice(&self, a: usize, b: usize) -> (r: Vec<char>)
        requires
            self.wf(),
        ensures
            r@ == byte_slice(self.text(), a as int, b as int),
    {
        let i = self.char_index(a);
        let j = self.char_index(b);
        let mut r: Vec<char> = Vec::new();
        if i <= j {
            let mut k = i;
            while k < j
                invariant
                    self.wf(),
                    i <= k <= j <= self.text().len(),
                    r@ == self.text().subrange(i as int, k as int),
                decreases j - k,
            {
                r.push(self.chars[k]);
                k = k + 1;
                assert(r@ =~= self.text().subrange(i as int, k as int));
            }
        } else {
            assert(r@ =~= Seq::<char>::empty());
        }
        r
    }
}

} // verus!
