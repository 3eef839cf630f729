use vstd::prelude::*;
use vstd::std_specs::iter::IteratorSpec;

verus! {

/// The number of bytes UTF-8 takes to encode `c`.
pub open spec fn width(c: char) -> int {
    let v = c as u32;
    if v < 0x80 {
        1
    } else if v < 0x800 {
        2
    } else if v < 0x10000 {
        3
    } else {
        4
    }
}

/// The width of a character is the length of its UTF-8 encoding.
pub proof fn law_width_utf8(c: char)
    ensures
        width(c) == vstd::utf8::encode_scalar(c as u32).len(),
{
    vstd::utf8::char_is_scalar(c);
}

/// Unicode white space, as `char::is_whitespace` has it.
pub open spec fn white(c: char) -> bool {
    let v = c as u32;
    ||| 0x9 <= v <= 0xD
    ||| v == 0x20
    ||| v == 0x85
    ||| v == 0xA0
    ||| v == 0x1680
    ||| 0x2000 <= v <= 0x200A
    ||| v == 0x2028
    ||| v == 0x2029
    ||| v == 0x202F
    ||| v == 0x205F
    ||| v == 0x3000
}

/// The byte offset of the `k`-th character of `s`.
pub open spec fn offset(s: Seq<char>, k: int) -> int
    decreases k,
{
    if k <= 0 {
        0
    } else {
        offset(s, k - 1) + width(s[k - 1])
    }
}

/// The first character at or after `k` that a reader in the given mode
/// sees: any character when strict, else one that is not white space;
/// `s.len()` when there is none.
pub open spec fn next_visible(s: Seq<char>, k: int, strict: bool) -> int
    decreases s.len() - k,
{
    if k < 0 || k >= s.len() {
        s.len() as int
    } else if strict || !white(s[k]) {
        k
    } else {
        next_visible(s, k + 1, strict)
    }
}

/// Offsets grow with the index.
pub proof fn lemma_offset_grows(s: Seq<char>, a: int, b: int)
    requires
        0 <= a <= b,
    ensures
        offset(s, a) + (b - a) <= offset(s, b),
    decreases b - a,
{
    if a < b {
        lemma_offset_grows(s, a, b - 1);
    }
}

/// The first visible character is at or after the start.
pub proof fn lemma_next_visible_bounds(s: Seq<char>, k: int, strict: bool)
    requires
        0 <= k <= s.len(),
    ensures
        k <= next_visible(s, k, strict) <= s.len(),
        next_visible(s, k, strict) < s.len() ==> strict || !white(s[next_visible(s, k, strict)]),
        forall|q: int| k <= q < next_visible(s, k, strict) ==> !strict && white(#[trigger] s[q]),
    decreases s.len() - k,
{
    if k < s.len() && !(strict || !white(s[k])) {
        lemma_next_visible_bounds(s, k + 1, strict);
    }
}

/// The UTF-8 width of a character.
pub fn utf8_width(c: char) -> (w: usize)
    ensures
        w == width(c),
{
    let v = c as u32;
    if v < 0x80 {
        1
    } else if v < 0x800 {
        2
    } else if v < 0x10000 {
        3
    } else {
        4
    }
}

/// Whether a character is white space.
pub fn is_white(c: char) -> (b: bool)
    ensures
        b == white(c),
{
    let v = c as u32;
    (0x9 <= v && v <= 0xD) || v == 0x20 || v == 0x85 || v == 0xA0 || v == 0x1680 || (0x2000 <= v
        && v <= 0x200A) || v == 0x2028 || v == 0x2029 || v == 0x202F || v == 0x205F || v == 0x3000
}

/// The source text a parser reads, with the byte position it has reached.
/// Outside strict mode the reader skips white space.
pub struct Stream {
    pub body: String,
    pub strict: bool,
    pub cursor: usize,
}

/// `cursor` falls between two characters of `s`, and the whole text fits
/// the address space.
pub open spec fn readable(s: Seq<char>, cursor: int) -> bool {
    &&& exists|k: int| 0 <= k <= s.len() && offset(s, k) == cursor
    &&& offset(s, s.len() as int) <= usize::MAX
}

/// Finds, from the character at byte `cursor` on, the first one a reader in
/// the given mode sees: the character with its start and end offsets, or
/// nothing with the end of the text twice.
fn locate(body: &String, cursor: usize, strict: bool) -> (r: (Option<char>, usize, usize))
    requires
        readable(body@, cursor as int),
    ensures
        forall|k: int|
            0 <= k <= body@.len() && offset(body@, k) == cursor ==> {
                let j = next_visible(body@, k, strict);
                &&& j < body@.len() ==> r.0 == Some(body@[j]) && r.1 == offset(body@, j) && r.2 == offset(
                    body@,
                    j + 1,
                )
                &&& j == body@.len() ==> r.0 is None && r.1 == offset(body@, j) && r.2 == offset(
                    body@,
                    j,
                )
            },
{
    let ghost all = body@;
    let ghost k = choose|k: int| 0 <= k <= all.len() && offset(all, k) == cursor;
    proof {
        lemma_next_visible_bounds(all, k, strict);
        assert forall|k2: int| 0 <= k2 <= all.len() && offset(all, k2) == cursor implies k2 == k by {
            if k2 < k {
                lemma_offset_grows(all, k2, k);
            } else if k2 > k {
                lemma_offset_grows(all, k, k2);
            }
        }
    }
    let mut it = body.as_str().chars();
    let mut pos: usize = 0;
    let ghost mut idx: int = 0;
    loop
        invariant
            all == body@,
            0 <= k <= all.len(),
            offset(all, k) == cursor,
            forall|k2: int| 0 <= k2 <= all.len() && offset(all, k2) == cursor ==> k2 == k,
            offset(all, all.len() as int) <= usize::MAX,
            0 <= idx <= all.len(),
            it.remaining() == all.skip(idx),
            pos == offset(all, idx),
            idx <= k || next_visible(all, k, strict) == next_visible(all, idx, strict),
        ensures
            idx == all.len(),
            idx <= k || next_visible(all, k, strict) == next_visible(all, idx, strict),
            pos == offset(all, idx),
        decreases all.len() - idx,
    {
        let ghost before = it.remaining();
        match it.next() {
            None => {
                assert(before.len() == 0);
                break;
            },
            Some(c) => {
                assert(c == all[idx]);
                let w = utf8_width(c);
                proof {
                    lemma_offset_grows(all, idx + 1, all.len() as int);
                }
                let start = pos;
                pos = pos + w;
                proof {
                    if idx < k {
                        lemma_offset_grows(all, idx + 1, k);
                    } else {
                        lemma_offset_grows(all, k, idx);
                    }
                    idx = idx + 1;
                }
                assert(it.remaining() =~= all.skip(idx));
                if start >= cursor {
                    proof {
                        if idx - 1 < k {
                            lemma_offset_grows(all, idx, k);
                        }
                    }
                    if strict || !is_white(c) {
                        assert(next_visible(all, idx - 1, strict) == idx - 1);
                        return (Some(c), start, pos);
                    }
                }
            },
        }
    }
    assert(next_visible(all, k, strict) == all.len());
    (None, pos, pos)
}

impl Stream {
    /// The next character the reader sees: in strict mode the one at the
    /// cursor, else the first that is not white space. The cursor moves past
    /// it, or to the end of the text when there is none.
    pub fn next(&mut self) -> (r: Option<char>)
        requires
            readable(old(self).body@, old(self).cursor as int),
        ensures
            final(self).body == old(self).body,
            final(self).strict == old(self).strict,
            forall|k: int|
                0 <= k <= old(self).body@.len() && offset(old(self).body@, k) == old(self).cursor ==> {
                    let s = old(self).body@;
                    let j = next_visible(s, k, old(self).strict);
                    &&& j < s.len() ==> r == Some(s[j]) && final(self).cursor == offset(s, j + 1)
                    &&& j == s.len() ==> r is None && final(self).cursor == offset(s, j)
                },
    {
        let (c, _start, end) = locate(&self.body, self.cursor, self.strict);
        self.cursor = end;
        c
    }

    /// Outside strict mode, moves the cursor over white space.
    pub fn trim(&mut self)
        requires
            readable(old(self).body@, old(self).cursor as int),
        ensures
            final(self).body == old(self).body,
            final(self).strict == old(self).strict,
            old(self).strict ==> final(self).cursor == old(self).cursor,
            !old(self).strict ==> forall|k: int|
                0 <= k <= old(self).body@.len() && offset(old(self).body@, k) == old(self).cursor
                    ==> final(self).cursor == offset(old(self).body@, next_visible(old(self).body@, k, false)),
    {
        if self.strict {
            return;
        }
        let (_c, start, _end) = locate(&self.body, self.cursor, false);
        proof {
            assert forall|k: int| 0 <= k <= self.body@.len() && offset(self.body@, k) == self.cursor implies start
                == offset(self.body@, next_visible(self.body@, k, false)) by {
                lemma_next_visible_bounds(self.body@, k, false);
            }
        }
        self.cursor = start;
    }
}

/// Trimming twice is trimming once, and what a reader outside strict mode
/// sees next does not change by trimming first.
pub proof fn law_trim_settles(s: Seq<char>, k: int)
    requires
        0 <= k <= s.len(),
    ensures
        next_visible(s, next_visible(s, k, false), false) == next_visible(s, k, false),
{
    lemma_next_visible_bounds(s, k, false);
}

} // verus!
