//! Counting the distinct n-grams of a code sequence: every window is
//! materialised, the windows are sorted, and each position of the sorted
//! array where a new value begins is recorded.
use rayon::iter::{IntoParallelIterator, ParallelIterator};
use vstd::prelude::*;

verus! {

broadcast use vstd::seq_lib::group_to_multiset_ensures, vstd::seq_lib::seq_to_set_is_finite;

/// Why no n-gram count was made.
#[derive(Debug, Clone, Copy, PartialEq, Eq, Structural)]
pub enum NgramError {
    /// The gram length is zero.
    GramZero,
    /// The gram length is not below the length of the sequence.
    GramTooLong,
}

/// The windows of length `g` at the offsets `0 .. raw.len() - g`. The window
/// that would start at offset `raw.len() - g` is left out.
pub open spec fn windows(raw: Seq<u8>, g: nat) -> Seq<Seq<u8>> {
    Seq::new((raw.len() - g) as nat, |i: int| raw.subrange(i, i + g))
}

/// Lexicographic order on byte sequences, as `Vec<u8>` orders them.
pub open spec fn lex_le(a: Seq<u8>, b: Seq<u8>) -> bool
    decreases a.len(),
{
    if a.len() == 0 {
        true
    } else if b.len() == 0 {
        false
    } else if a[0] != b[0] {
        a[0] < b[0]
    } else {
        lex_le(a.drop_first(), b.drop_first())
    }
}

/// `s` is in ascending lexicographic order.
pub open spec fn sorted_lex(s: Seq<Seq<u8>>) -> bool {
    forall|i: int, j: int| 0 <= i < j < s.len() ==> lex_le(#[trigger] s[i], #[trigger] s[j])
}

/// `s` holds the elements of `w`, sorted.
pub open spec fn sorted_arrangement(s: Seq<Seq<u8>>, w: Seq<Seq<u8>>) -> bool {
    s.to_multiset() == w.to_multiset() && sorted_lex(s)
}

/// The positions of `s` at which a new value begins: `0`, and every `k` with
/// `s[k - 1] != s[k]`, in ascending order.
pub open spec fn boundaries(s: Seq<Seq<u8>>) -> Seq<usize>
    decreases s.len(),
{
    if s.len() == 0 {
        Seq::empty()
    } else if s.len() == 1 || s[s.len() - 2] != s.last() {
        boundaries(s.drop_last()).push((s.len() - 1) as usize)
    } else {
        boundaries(s.drop_last())
    }
}

/// The byte sequences that `v` holds.
pub open spec fn views(v: Seq<Vec<u8>>) -> Seq<Seq<u8>> {
    v.map_values(|w: Vec<u8>| w@)
}

/// Lexicographic order is antisymmetric.
pub proof fn lemma_lex_antisymmetric(a: Seq<u8>, b: Seq<u8>)
    requires
        lex_le(a, b),
        lex_le(b, a),
    ensures
        a == b,
    decreases a.len(),
{
    if a.len() == 0 {
        assert(a =~= b);
    } else {
        lemma_lex_antisymmetric(a.drop_first(), b.drop_first());
        assert(a =~= seq![a[0]] + a.drop_first());
        assert(b =~= seq![b[0]] + b.drop_first());
    }
}

/// In a sorted sequence there is one boundary for each distinct value.
pub proof fn lemma_boundaries_count_distinct(s: Seq<Seq<u8>>)
    requires
        sorted_lex(s),
    ensures
        boundaries(s).len() == s.to_set().len(),
    decreases s.len(),
{
    if s.len() == 0 {
        assert(s.to_set() =~= Set::empty());
    } else {
        let p = s.drop_last();
        let n = s.len();
        assert(sorted_lex(p));
        lemma_boundaries_count_distinct(p);
        assert(s.to_set() =~= p.to_set().insert(s.last())) by {
            assert(s =~= p.push(s.last()));
            assert(forall|x| s.contains(x) <==> p.contains(x) || x == s.last()) by {
                assert forall|x| s.contains(x) implies p.contains(x) || x == s.last() by {
                    if s.contains(x) {
                        let k = choose|k: int| 0 <= k < n && s[k] == x;
                        if k < n - 1 {
                            assert(p[k] == x);
                        }
                    }
                }
                assert forall|x| p.contains(x) implies s.contains(x) by {
                    if p.contains(x) {
                        let k = choose|k: int| 0 <= k < n - 1 && p[k] == x;
                        assert(s[k] == x);
                    }
                }
                assert(s[n - 1] == s.last());
            }
        }
        if n == 1 {
            assert(p.to_set() =~= Set::empty());
        } else if s[n - 2] != s.last() {
            assert(!p.contains(s.last())) by {
                if p.contains(s.last()) {
                    let k = choose|k: int| 0 <= k < n - 1 && p[k] == s.last();
                    if k < n - 2 {
                        assert(lex_le(s[k], s[n - 2]));
                        assert(lex_le(s[n - 2], s[n - 1]));
                        lemma_lex_antisymmetric(s[k], s[n - 2]);
                    }
                }
            }
        } else {
            assert(p[n - 2] == s.last());
            assert(p.to_set().contains(s.last()));
            assert(p.to_set().insert(s.last()) =~= p.to_set());
        }
    }
}

/// Every boundary is a position of `s`, and the boundaries ascend strictly,
/// starting at `0` when `s` is not empty.
pub proof fn lemma_boundaries_shape(s: Seq<Seq<u8>>)
    requires
        s.len() <= usize::MAX,
    ensures
        boundaries(s).len() <= s.len(),
        s.len() > 0 ==> boundaries(s).len() >= 1 && boundaries(s)[0] == 0,
        forall|i: int| 0 <= i < boundaries(s).len() ==> (#[trigger] boundaries(s)[i]) < s.len(),
        forall|i: int, j: int|
            0 <= i < j < boundaries(s).len() ==> #[trigger] boundaries(s)[i] < #[trigger] boundaries(
                s,
            )[j],
    decreases s.len(),
{
    if s.len() > 0 {
        let p = s.drop_last();
        lemma_boundaries_shape(p);
        let b = boundaries(s);
        let bp = boundaries(p);
        if s.len() == 1 || s[s.len() - 2] != s.last() {
            assert(b == bp.push((s.len() - 1) as usize));
            assert forall|i: int, j: int| 0 <= i < j < b.len() implies #[trigger] b[i] < #[trigger] b[j] by {
                assert(b[i] == bp[i]);
                if j < bp.len() {
                    assert(b[j] == bp[j]);
                }
            }
        }
    }
}

/// The window of length `g` at offset `i`.
fn window_at(raw: &[u8], i: usize, g: usize) -> (r: Vec<u8>)
    requires
        i + g <= raw@.len(),
    ensures
        r@ == raw@.subrange(i as int, i + g),
{
    let n = raw.len();
    let mut r: Vec<u8> = Vec::new();
    let mut j: usize = 0;
    while j < g
        invariant
            j <= g,
            n == raw@.len(),
            i + g <= raw@.len(),
            r@ == raw@.subrange(i as int, i + j),
        decreases g - j,
    {
        r.push(raw[i + j]);
        j += 1;
        assert(r@ =~= raw@.subrange(i as int, i + j));
    }
    r
}

/// Relies on rayon's `into_par_iter` over a range, `map`, and `collect` into
/// a `Vec` (through `Vec`'s `par_extend`), which places the item of each
/// index at that index: the windows come out in offset order.
#[verifier::external_body]
fn materialize_windows(raw: &[u8], g: usize, count: usize) -> (r: Vec<Vec<u8>>)
    requires
        count + g <= raw@.len(),
    ensures
        r@.len() == count,
        forall|i: int| 0 <= i < count ==> (#[trigger] r@[i])@ == raw@.subrange(i, i + g),
{
    (0..count).into_par_iter().map(|i| window_at(raw, i, g)).collect()
}

/// Relies on `slice::sort_unstable`: it rearranges the vectors into ascending
/// order under `Vec<u8>`'s lexicographic `Ord`.
#[verifier::external_body]
fn sort_windows(v: &mut Vec<Vec<u8>>)
    ensures
        final(v)@.len() == old(v)@.len(),
        views(final(v)@).to_multiset() == views(old(v)@).to_multiset(),
        sorted_lex(views(final(v)@)),
{
    v.sort_unstable()
}

/// Whether two byte vectors hold the same bytes.
fn same_window(a: &Vec<u8>, b: &Vec<u8>) -> (r: bool)
    ensures
        r == (a@ == b@),
{
    if a.len() != b.len() {
        return false;
    }
    let mut i: usize = 0;
    while i < a.len()
        invariant
            i <= a@.len() == b@.len(),
            forall|j: int| 0 <= j < i ==> a@[j] == b@[j],
        decreases a@.len() - i,
    {
        if a[i] != b[i] {
            return false;
        }
        i += 1;
    }
    assert(a@ =~= b@);
    true
}

/// The positions, in the sorted array of the windows of length `gram` of
/// `raw`, at which a new window value begins. Their number is the number of
/// distinct windows.
pub fn get_unique_vecs_idx(gram: u8, raw: &[u8]) -> (r: Result<Vec<usize>, NgramError>)
    ensures
        gram == 0 ==> r == Err::<Vec<usize>, NgramError>(NgramError::GramZero),
        gram > 0 && gram >= raw@.len() ==> r == Err::<Vec<usize>, NgramError>(
            NgramError::GramTooLong,
        ),
        0 < gram < raw@.len() ==> (r matches Ok(idx) && (exists|s: Seq<Seq<u8>>|
            #[trigger] sorted_arrangement(s, windows(raw@, gram as nat)) && idx@ == boundaries(s))
            && idx@.len() == windows(raw@, gram as nat).to_set().len() && 1 <= idx@.len() <= raw@.len()
            - gram),
{
    if gram == 0 {
        return Err(NgramError::GramZero);
    }
    let g = gram as usize;
    if g >= raw.len() {
        return Err(NgramError::GramTooLong);
    }
    let count = raw.len() - g;
    let mut ws = materialize_windows(raw, g, count);
    let ghost w = windows(raw@, g as nat);
    assert(views(ws@) =~= w);
    sort_windows(&mut ws);
    let ghost s = views(ws@);
    let mut idx: Vec<usize> = Vec::new();
    idx.push(0);
    assert(s.len() == ws@.len() && ws@.len() == count);
    assert(s.take(1).len() == 1);
    assert(s.take(1).drop_last() =~= Seq::<Seq<u8>>::empty());
    assert(boundaries(Seq::<Seq<u8>>::empty()) == Seq::<usize>::empty());
    assert(boundaries(s.take(1)) =~= seq![0usize]);
    assert(idx@ =~= seq![0usize]);
    let mut k: usize = 1;
    while k < ws.len()
        invariant
            1 <= k <= ws@.len(),
            s == views(ws@),
            idx@ == boundaries(s.take(k as int)),
        decreases ws@.len() - k,
    {
        assert(s.take(k + 1).drop_last() =~= s.take(k as int));
        if !same_window(&ws[k - 1], &ws[k]) {
            idx.push(k);
        }
        k += 1;
    }
    assert(s.take(k as int) =~= s);
    proof {
        lemma_boundaries_count_distinct(s);
        assert(s.to_set() =~= w.to_set()) by {
            assert forall|x| s.contains(x) <==> w.contains(x) by {
                assert(s.to_multiset().count(x) == w.to_multiset().count(x));
            }
        }
        assert(sorted_arrangement(s, w));
        lemma_distinct_count_bounds(raw@, g as nat, s);
    }
    Ok(idx)
}

/// For a gram length below the sequence length, exactly `raw.len() - g`
/// windows are materialised, and so any sorted arrangement of them has that
/// many entries.
pub proof fn lemma_window_count(raw: Seq<u8>, g: nat, s: Seq<Seq<u8>>)
    requires
        g < raw.len(),
    ensures
        windows(raw, g).len() == raw.len() - g,
        sorted_arrangement(s, windows(raw, g)) ==> s.len() == raw.len() - g,
{
    if sorted_arrangement(s, windows(raw, g)) {
        assert(s.to_multiset().len() == windows(raw, g).to_multiset().len());
    }
}

/// For a gram length below the sequence length, the distinct-window count
/// is at least 1 and at most the number of windows, `raw.len() - g`.
pub proof fn lemma_distinct_count_bounds(raw: Seq<u8>, g: nat, s: Seq<Seq<u8>>)
    requires
        g < raw.len() <= usize::MAX,
        sorted_arrangement(s, windows(raw, g)),
    ensures
        1 <= boundaries(s).len() <= raw.len() - g,
{
    lemma_window_count(raw, g, s);
    lemma_boundaries_shape(s);
}

} // verus!
