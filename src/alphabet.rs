//! The alphabet table: a character-to-code assignment that grows as new
//! eligible characters are met.
use std::collections::HashMap;
use vstd::prelude::*;

verus! {

broadcast use vstd::std_specs::hash::group_hash_axioms;

/// First code point of the Thai block.
pub const THAI_FIRST: u32 = 0x0E01;

/// Last code point of the Thai block.
pub const THAI_LAST: u32 = 0x0E7F;

/// The most codes a table can hand out: codes are `1..=255`, `0` is reserved.
pub const MAX_CODES: usize = 255;

/// Whether `c` lies in the Thai block.
pub open spec fn is_thai(c: char) -> bool {
    THAI_FIRST <= (c as u32) && (c as u32) <= THAI_LAST
}

/// Whether `c` is given a real code: Thai, or named in `extra`.
pub open spec fn is_eligible(c: char, extra: Seq<char>) -> bool {
    is_thai(c) || extra.contains(c)
}

/// Every assigned code is positive, at most the number of assigned codes, and
/// no two characters share a code.
pub open spec fn table_wf(t: Map<u32, u8>) -> bool {
    &&& t.dom().finite()
    &&& t.len() <= MAX_CODES
    &&& forall|k: u32| #[trigger] t.contains_key(k) ==> 1 <= t[k] && t[k] <= t.len()
    &&& forall|k1: u32, k2: u32|
        #[trigger] t.contains_key(k1) && #[trigger] t.contains_key(k2) && k1 != k2 ==> t[k1]
            != t[k2]
}

/// What encoding one character does to a table (keyed by code point): the new
/// table and the code, or `None` when the character needs a new code and none
/// is left.
pub open spec fn assign_spec(t: Map<u32, u8>, c: char, extra: Seq<char>) -> Option<
    (Map<u32, u8>, u8),
> {
    if !is_eligible(c, extra) {
        Some((t, 0u8))
    } else if t.contains_key(c as u32) {
        Some((t, t[c as u32]))
    } else if t.len() < MAX_CODES {
        Some((t.insert(c as u32, (t.len() + 1) as u8), (t.len() + 1) as u8))
    } else {
        None
    }
}

/// Encoding a character keeps every code already given, keeps a table well
/// formed, and leaves an eligible character mapped to the code it returned.
pub proof fn lemma_assign_wf(t: Map<u32, u8>, c: char, extra: Seq<char>)
    ensures
        assign_spec(t, c, extra) matches Some((t2, code)) ==> {
            &&& table_wf(t) ==> table_wf(t2)
            &&& is_eligible(c, extra) ==> t2.contains_key(c as u32) && t2[c as u32] == code
            &&& table_wf(t) && is_eligible(c, extra) ==> code >= 1
            &&& !is_eligible(c, extra) ==> code == 0 && t2 == t
            &&& forall|k: u32| #[trigger] t.contains_key(k) ==> t2.contains_key(k) && t2[k] == t[k]
        },
{
    if is_eligible(c, extra) && !t.contains_key(c as u32) && t.len() < MAX_CODES && table_wf(t) {
        let t2 = t.insert(c as u32, (t.len() + 1) as u8);
        assert(t2.dom() == t.dom().insert(c as u32));
        assert(t2.len() == t.len() + 1);
    }
}

/// A character-to-code table. Codes are handed out from 1 upwards in the
/// order in which eligible characters are first met; a mapping never changes.
/// The table is changed only through `assign`, which looks a character up
/// and records a new code in one step, so no code is ever handed out without
/// its mapping: the codes in use are distinct and none exceeds their number.
pub struct AlphabetTable {
    codes: HashMap<u32, u8>,
}

impl View for AlphabetTable {
    type V = Map<u32, u8>;

    closed spec fn view(&self) -> Map<u32, u8> {
        self.codes@
    }
}

impl AlphabetTable {
    /// An empty table.
    pub fn new() -> (r: Self)
        ensures
            r@ == Map::<u32, u8>::empty(),
            table_wf(r@),
    {
        let r = AlphabetTable { codes: HashMap::new() };
        assert(r@.dom() =~= Set::<u32>::empty());
        r
    }

    /// The number of characters that have a code.
    pub fn len(&self) -> (r: usize)
        ensures
            r == self@.len(),
    {
        self.codes.len()
    }

    /// The code of `c`, if it has one.
    pub fn code_of(&self, c: char) -> (r: Option<u8>)
        ensures
            r == (if self@.contains_key(c as u32) {
                Some(self@[c as u32])
            } else {
                None
            }),
    {
        let cp = c as u32;
        match self.codes.get(&cp) {
            Some(v) => Some(*v),
            None => None,
        }
    }

    /// Encodes one character: `0` when it is not eligible, its code when it
    /// has one, and otherwise the next free code, which is recorded. Returns
    /// `None`, leaving the table as it was, when every code is taken.
    pub fn assign(&mut self, c: char, extra: &[char]) -> (r: Option<u8>)
        ensures
            match assign_spec(old(self)@, c, extra@) {
                Some((t2, code)) => r == Some(code) && final(self)@ == t2,
                None => r.is_none() && final(self)@ == old(self)@,
            },
            table_wf(old(self)@) ==> table_wf(final(self)@),
    {
        proof {
            if table_wf(old(self)@) {
                lemma_assign_wf(old(self)@, c, extra@);
            }
        }
        let cp = c as u32;
        if (cp < THAI_FIRST || cp > THAI_LAST) && !contains_char(extra, c) {
            return Some(0);
        }
        match self.codes.get(&cp) {
            Some(v) => {
                return Some(*v);
            },
            None => {},
        }
        let n = self.codes.len();
        if n >= MAX_CODES {
            return None;
        }
        let code = (n + 1) as u8;
        self.codes.insert(cp, code);
        Some(code)
    }
}

/// Whether `c` occurs in `s`.
pub fn contains_char(s: &[char], c: char) -> (r: bool)
    ensures
        r == s@.contains(c),
{
    let mut i: usize = 0;
    while i < s.len()
        invariant
            i <= s@.len(),
            forall|j: int| 0 <= j < i ==> s@[j] != c,
        decreases s@.len() - i,
    {
        if s[i] == c {
            return true;
        }
        i += 1;
    }
    false
}

/// The character that a line of a character-list file names: its first
/// character, or a line break for an empty line.
pub open spec fn line_char(l: Seq<char>) -> char {
    if l.len() == 0 {
        '\n'
    } else {
        l[0]
    }
}

/// `s` ascends strictly by code point.
pub open spec fn ascending(s: Seq<char>) -> bool {
    forall|i: int, j: int| 0 <= i < j < s.len() ==> (#[trigger] s[i] as u32) < (#[trigger] s[j] as u32)
}

/// Whether some line of `lines` names `c`.
pub open spec fn named_by(lines: Seq<String>, c: char) -> bool {
    exists|j: int| 0 <= j < lines.len() && #[trigger] line_char(lines[j]@) == c
}

/// The characters that a list of lines names, each once, in ascending order
/// of code point.
pub fn extra_chars_from_lines(lines: &Vec<String>) -> (r: Vec<char>)
    ensures
        ascending(r@),
        forall|c: char| r@.contains(c) <==> named_by(lines@, c),
{
    let mut r: Vec<char> = Vec::new();
    let mut i: usize = 0;
    while i < lines.len()
        invariant
            i <= lines@.len(),
            ascending(r@),
            forall|c: char| r@.contains(c) <==> named_by(lines@.take(i as int), c),
        decreases lines@.len() - i,
    {
        let line = lines[i].as_str();
        let c = if line.unicode_len() == 0 {
            '\n'
        } else {
            line.get_char(0)
        };
        assert(c == line_char(lines@[i as int]@));
        let mut p: usize = 0;
        while p < r.len() && (r[p] as u32) < (c as u32)
            invariant
                p <= r@.len(),
                forall|k: int| 0 <= k < p ==> (#[trigger] r@[k] as u32) < (c as u32),
            decreases r@.len() - p,
        {
            p += 1;
        }
        let ghost old_r = r@;
        if p == r.len() || r[p] != c {
            r.insert(p, c);
            proof {
                if p < old_r.len() && (old_r[p as int] as u32) == (c as u32) {
                    vstd::utf8::char_u32_cast(old_r[p as int], c as u32);
                    vstd::utf8::char_u32_cast(c, c as u32);
                }
                assert forall|k: int| p < k < r@.len() implies (c as u32) < (#[trigger] r@[k] as u32) by {
                    assert(r@[k] == old_r[k - 1]);
                    if k - 1 > p {
                        assert((old_r[p as int] as u32) < (old_r[k - 1] as u32));
                    }
                    assert((old_r[p as int] as u32) >= (c as u32));
                }
                assert forall|a: int, b: int| 0 <= a < b < r@.len() implies (#[trigger] r@[a] as u32) < (
                #[trigger] r@[b] as u32) by {
                    if b < p {
                        assert(r@[a] == old_r[a] && r@[b] == old_r[b]);
                    } else if b == p {
                        assert(r@[a] == old_r[a]);
                    } else if a < p {
                        assert(r@[a] == old_r[a]);
                        assert((c as u32) < (r@[b] as u32));
                    } else if a == p {
                    } else {
                        assert(r@[a] == old_r[a - 1] && r@[b] == old_r[b - 1]);
                    }
                }
                assert forall|x: char| r@.contains(x) <==> old_r.contains(x) || x == c by {
                    if r@.contains(x) {
                        let k = choose|k: int| 0 <= k < r@.len() && r@[k] == x;
                        if k < p {
                            assert(old_r[k] == x);
                        } else if k > p {
                            assert(old_r[k - 1] == x);
                        }
                    }
                    if old_r.contains(x) {
                        let k = choose|k: int| 0 <= k < old_r.len() && old_r[k] == x;
                        if k < p {
                            assert(r@[k] == x);
                        } else {
                            assert(r@[k + 1] == x);
                        }
                    }
                    assert(r@[p as int] == c);
                }
            }
        } else {
            assert(r@[p as int] == c);
            assert(r@.contains(c));
            assert(r@ == old_r);
            assert forall|x: char| r@.contains(x) <==> old_r.contains(x) || x == c by {
                if x == c {
                    assert(r@.contains(c));
                }
            }
        }
        proof {
            let pre = lines@.take(i as int);
            let post = lines@.take(i + 1);
            assert forall|x: char| named_by(post, x) <==> named_by(pre, x) || x == c by {
                if named_by(post, x) {
                    let j = choose|j: int| 0 <= j < post.len() && #[trigger] line_char(post[j]@) == x;
                    if j < i {
                        assert(pre[j] == post[j]);
                    }
                }
                if named_by(pre, x) {
                    let j = choose|j: int| 0 <= j < pre.len() && #[trigger] line_char(pre[j]@) == x;
                    assert(pre[j] == post[j]);
                }
                assert(post[i as int] == lines@[i as int]);
            }
            assert forall|x: char| r@.contains(x) <==> named_by(post, x) by {
                assert(old_r.contains(x) <==> named_by(pre, x));
            }
        }
        i += 1;
    }
    assert(lines@.take(i as int) =~= lines@);
    r
}

} // verus!
