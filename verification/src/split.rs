//! Splitting a character sequence at separator characters, as
//! `str::split` does: `n` separators give `n + 1` fields, and adjacent
//! separators give empty fields.

use vstd::prelude::*;

verus! {

/// The fields of `s`, split at every character that satisfies `sep`.
pub open spec fn split_on(s: Seq<char>, sep: spec_fn(char) -> bool) -> Seq<Seq<char>>
    decreases s.len(),
{
    if s.len() == 0 {
        seq![Seq::<char>::empty()]
    } else if sep(s[0]) {
        seq![Seq::<char>::empty()] + split_on(s.skip(1), sep)
    } else {
        let rest = split_on(s.skip(1), sep);
        seq![seq![s[0]] + rest[0]] + rest.skip(1)
    }
}

/// A split always yields at least one field.
pub proof fn lemma_split_on_nonempty(s: Seq<char>, sep: spec_fn(char) -> bool)
    ensures
        split_on(s, sep).len() >= 1,
    decreases s.len(),
{
    if s.len() > 0 {
        lemma_split_on_nonempty(s.skip(1), sep);
    }
}

/// A string without separators is one whole field.
pub proof fn lemma_split_on_no_sep(s: Seq<char>, sep: spec_fn(char) -> bool)
    requires
        forall|i: int| 0 <= i < s.len() ==> !sep(#[trigger] s[i]),
    ensures
        split_on(s, sep) == seq![s],
    decreases s.len(),
{
    if s.len() == 0 {
        assert(split_on(s, sep) =~~= seq![s]);
    } else {
        let t = s.skip(1);
        assert(forall|i: int| 0 <= i < t.len() ==> !sep(#[trigger] t[i])) by {
            assert(forall|i: int| 0 <= i < t.len() ==> t[i] == s[i + 1]);
        }
        lemma_split_on_no_sep(t, sep);
        lemma_split_on_nonempty(t, sep);
        assert(seq![s[0]] + t =~= s);
        assert(split_on(s, sep) =~~= seq![s]);
    }
}

/// Splitting at the first separator: the field before it, then the fields
/// of what follows it.
pub proof fn lemma_split_on_first_sep(s: Seq<char>, sep: spec_fn(char) -> bool, k: int)
    requires
        0 <= k < s.len(),
        sep(s[k]),
        forall|i: int| 0 <= i < k ==> !sep(#[trigger] s[i]),
    ensures
        split_on(s, sep) == seq![s.take(k)] + split_on(s.skip(k + 1), sep),
    decreases k,
{
    if k == 0 {
        assert(s.take(0) =~= Seq::<char>::empty());
        assert(split_on(s, sep) =~~= seq![s.take(0)] + split_on(s.skip(1), sep));
    } else {
        let t = s.skip(1);
        assert(forall|i: int| 0 <= i < t.len() ==> t[i] == s[i + 1]);
        assert(sep(t[k - 1]));
        lemma_split_on_first_sep(t, sep, k - 1);
        let rest = split_on(t, sep);
        assert(t.skip(k) =~= s.skip(k + 1));
        assert(rest == seq![t.take(k - 1)] + split_on(s.skip(k + 1), sep));
        lemma_split_on_nonempty(s.skip(k + 1), sep);
        assert(rest[0] == t.take(k - 1));
        assert(seq![s[0]] + t.take(k - 1) =~= s.take(k));
        assert(rest.skip(1) =~= split_on(s.skip(k + 1), sep));
        assert(!sep(s[0]));
        assert(split_on(s, sep) =~~= seq![s.take(k)] + split_on(s.skip(k + 1), sep));
    }
}

} // verus!
