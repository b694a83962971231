//! Choosing among the colorschemes of a directory: the lexicographic order
//! their names are listed in, the toggle rule that steps from the current
//! scheme to the next or previous one, and the status of the current marker.

use vstd::prelude::*;
use vstd::relations::{sorted_by, total_ordering};
use vstd::seq_lib::lemma_multiset_commutative;
use vstd::seq_lib::lemma_sorted_unique;

use crate::Error;

verus! {

/// Lexicographic order on character sequences by code point: the order
/// `sort` puts strings in.
pub open spec fn lex_le(a: Seq<char>, b: Seq<char>) -> bool
    decreases a.len(),
{
    if a.len() == 0 {
        true
    } else if b.len() == 0 {
        false
    } else if a[0] == b[0] {
        lex_le(a.drop_first(), b.drop_first())
    } else {
        a[0] < b[0]
    }
}

/// The order `lex_le` as a value.
pub open spec fn lex_leq_fn() -> spec_fn(Seq<char>, Seq<char>) -> bool {
    |a: Seq<char>, b: Seq<char>| lex_le(a, b)
}

/// Every sequence compares at or below itself.
pub proof fn lemma_lex_refl(a: Seq<char>)
    ensures
        lex_le(a, a),
    decreases a.len(),
{
    if a.len() > 0 {
        lemma_lex_refl(a.drop_first());
    }
}

/// Any two sequences compare one way or the other.
pub proof fn lemma_lex_total(a: Seq<char>, b: Seq<char>)
    ensures
        lex_le(a, b) || lex_le(b, a),
    decreases a.len(),
{
    if a.len() > 0 && b.len() > 0 {
        if a[0] == b[0] {
            lemma_lex_total(a.drop_first(), b.drop_first());
        }
    }
}

/// Sequences that compare at or below each other are equal.
pub proof fn lemma_lex_antisym(a: Seq<char>, b: Seq<char>)
    requires
        lex_le(a, b),
        lex_le(b, a),
    ensures
        a == b,
    decreases a.len(),
{
    if a.len() == 0 {
        assert(b.len() == 0);
        assert(a =~= b);
    } else {
        assert(b.len() > 0);
        assert(a[0] == b[0]);
        lemma_lex_antisym(a.drop_first(), b.drop_first());
        assert(a.drop_first() == b.drop_first());
        assert(a.drop_first().len() == b.drop_first().len());
        assert(a.len() == b.len());
        assert forall|i: int| 0 <= i < a.len() implies a[i] == b[i] by {
            if i > 0 {
                assert(a.drop_first()[i - 1] == a[i]);
                assert(b.drop_first()[i - 1] == b[i]);
            }
        }
        assert(a =~= b);
    }
}

/// The order is transitive.
pub proof fn lemma_lex_trans(a: Seq<char>, b: Seq<char>, c: Seq<char>)
    requires
        lex_le(a, b),
        lex_le(b, c),
    ensures
        lex_le(a, c),
    decreases a.len(),
{
    if a.len() > 0 && b.len() > 0 && c.len() > 0 && a[0] == b[0] && b[0] == c[0] {
        lemma_lex_trans(a.drop_first(), b.drop_first(), c.drop_first());
    }
}

/// `lex_le` is a total ordering in the sense of `vstd::relations`.
pub proof fn lemma_lex_total_ordering()
    ensures
        total_ordering(lex_leq_fn()),
{
    let leq = lex_leq_fn();
    assert forall|a: Seq<char>| #[trigger] leq(a, a) by {
        lemma_lex_refl(a);
    }
    assert forall|a: Seq<char>, b: Seq<char>| #[trigger] leq(a, b) && #[trigger] leq(b, a)
        implies a == b by {
        lemma_lex_antisym(a, b);
    }
    assert forall|a: Seq<char>, b: Seq<char>, c: Seq<char>|
        #[trigger] leq(a, b) && #[trigger] leq(b, c) implies leq(a, c) by {
        lemma_lex_trans(a, b, c);
    }
    assert forall|a: Seq<char>, b: Seq<char>| !(#[trigger] leq(a, b)) implies leq(b, a) by {
        lemma_lex_total(a, b);
    }
}

/// The views of a list of names.
pub open spec fn names_view(v: Seq<String>) -> Seq<Seq<char>> {
    v.map_values(|s: String| s@)
}

/// The names sorted lexicographically.
pub open spec fn spec_sorted(names: Seq<Seq<char>>) -> Seq<Seq<char>> {
    names.sort_by(lex_leq_fn())
}

/// Whether `a` compares at or below `b` in the lexicographic order.
pub fn str_le(a: &String, b: &String) -> (r: bool)
    ensures
        r == lex_le(a@, b@),
{
    let a_len = a.as_str().unicode_len();
    let b_len = b.as_str().unicode_len();
    let mut i: usize = 0;
    proof {
        assert(a@.skip(0) =~= a@);
        assert(b@.skip(0) =~= b@);
    }
    while i < a_len && i < b_len
        invariant
            i <= a_len,
            i <= b_len,
            a_len == a@.len(),
            b_len == b@.len(),
            lex_le(a@, b@) == lex_le(a@.skip(i as int), b@.skip(i as int)),
        decreases a_len - i,
    {
        let ca = a.as_str().get_char(i);
        let cb = b.as_str().get_char(i);
        proof {
            assert(a@.skip(i as int)[0] == a@[i as int]);
            assert(b@.skip(i as int)[0] == b@[i as int]);
            assert(a@.skip(i as int).drop_first() =~= a@.skip(i as int + 1));
            assert(b@.skip(i as int).drop_first() =~= b@.skip(i as int + 1));
        }
        if ca != cb {
            return ca < cb;
        }
        i += 1;
    }
    proof {
        if i >= a_len {
            assert(a@.skip(i as int).len() == 0);
        } else {
            assert(b@.skip(i as int).len() == 0);
            assert(a@.skip(i as int).len() > 0);
        }
    }
    i >= a_len
}

/// Inserting a name into a list inserts its view into the list's views.
proof fn lemma_names_view_insert(s: Seq<String>, j: int, x: String)
    requires
        0 <= j <= s.len(),
    ensures
        names_view(s.insert(j, x)) =~= names_view(s).insert(j, x@),
{
}

/// Inserting anywhere adds one occurrence to the multiset of a sequence.
proof fn lemma_insert_to_multiset(s: Seq<Seq<char>>, j: int, x: Seq<char>)
    requires
        0 <= j <= s.len(),
    ensures
        s.insert(j, x).to_multiset() =~= s.to_multiset().insert(x),
{
    broadcast use vstd::seq_lib::group_to_multiset_ensures;

    let a = s.subrange(0, j);
    let b = s.subrange(j, s.len() as int);
    assert(s.insert(j, x) =~= a.push(x) + b);
    lemma_multiset_commutative(a.push(x), b);
    assert(a.push(x).to_multiset() =~= a.to_multiset().insert(x));
    assert(s =~= a + b);
    lemma_multiset_commutative(a, b);
}

/// Sorts the names lexicographically: the views of the result are exactly
/// the sorted views of the input.
pub fn sort_names(v: &Vec<String>) -> (r: Vec<String>)
    ensures
        names_view(r@) == spec_sorted(names_view(v@)),
{
    broadcast use vstd::seq_lib::group_to_multiset_ensures;

    let mut r: Vec<String> = Vec::new();
    let mut i: usize = 0;
    proof {
        assert(names_view(v@.take(0)) =~= Seq::<Seq<char>>::empty());
        assert(names_view(r@) =~= Seq::<Seq<char>>::empty());
        assert(names_view(r@).to_multiset() =~= names_view(v@.take(0)).to_multiset());
    }
    while i < v.len()
        invariant
            i <= v@.len(),
            sorted_by(names_view(r@), lex_leq_fn()),
            names_view(r@).to_multiset() == names_view(v@.take(i as int)).to_multiset(),
        decreases v@.len() - i,
    {
        let x = v[i].clone();
        let ghost xv = v@[i as int]@;
        let ghost leq = lex_leq_fn();
        let mut j: usize = 0;
        while j < r.len() && str_le(&r[j], &x)
            invariant
                j <= r@.len(),
                i < v@.len(),
                x@ == v@[i as int]@,
                forall|m: int| 0 <= m < j ==> lex_le(names_view(r@)[m], x@),
            decreases r@.len() - j,
        {
            j += 1;
        }
        let ghost r0 = r@;
        let ghost rv0 = names_view(r0);
        proof {
            if j < r0.len() {
                assert(!lex_le(rv0[j as int], xv));
                lemma_lex_total(rv0[j as int], xv);
                assert(lex_le(xv, rv0[j as int]));
                assert forall|m: int| j <= m < rv0.len() implies lex_le(xv, rv0[m]) by {
                    if m > j {
                        assert(leq(rv0[j as int], rv0[m]));
                        lemma_lex_trans(xv, rv0[j as int], rv0[m]);
                    }
                }
            }
        }
        r.insert(j, x);
        proof {
            lemma_names_view_insert(r0, j as int, v@[i as int]);
            assert(names_view(r@) =~= rv0.insert(j as int, xv));
            lemma_insert_to_multiset(rv0, j as int, xv);
            assert(names_view(v@.take(i as int + 1)) =~= names_view(v@.take(i as int)).push(xv));
            names_view(v@.take(i as int)).to_multiset_ensures();
            assert(names_view(v@.take(i as int)).push(xv).to_multiset() =~= names_view(
                v@.take(i as int),
            ).to_multiset().insert(xv));
            assert(names_view(r@).to_multiset() =~= names_view(v@.take(i as int + 1)).to_multiset());
            let rv = names_view(r@);
            assert forall|m: int, n: int| 0 <= m < n < rv.len() implies #[trigger] leq(
                rv[m],
                rv[n],
            ) by {
                assert(rv =~= rv0.insert(j as int, xv));
                if n < j {
                    assert(leq(rv0[m], rv0[n]));
                } else if m > j {
                    assert(leq(rv0[m - 1], rv0[n - 1]));
                } else if m == j && n > j {
                    assert(lex_le(xv, rv0[n - 1]));
                } else if n == j && m < j {
                    assert(lex_le(rv0[m], xv));
                } else if m < j && n > j {
                    assert(lex_le(rv0[m], xv));
                    assert(lex_le(xv, rv0[n - 1]));
                    lemma_lex_trans(rv0[m], xv, rv0[n - 1]);
                }
            }
            assert(sorted_by(rv, lex_leq_fn()));
        }
        i += 1;
    }
    proof {
        assert(v@.take(v@.len() as int) =~= v@);
        let input = names_view(v@);
        lemma_lex_total_ordering();
        input.lemma_sort_by_ensures(lex_leq_fn());
        lemma_sorted_unique(names_view(r@), input.sort_by(lex_leq_fn()), lex_leq_fn());
    }
    r
}

/// The first index of `target` among `names`, if any entry equals it.
pub open spec fn spec_position(names: Seq<Seq<char>>, target: Seq<char>) -> Option<int>
    decreases names.len(),
{
    if names.len() == 0 {
        None
    } else if names[0] == target {
        Some(0int)
    } else {
        match spec_position(names.drop_first(), target) {
            Some(i) => Some(i + 1),
            None => None,
        }
    }
}

/// A first match at `p` pins `spec_position` to `p`.
pub proof fn lemma_position_found(names: Seq<Seq<char>>, target: Seq<char>, p: int)
    requires
        0 <= p < names.len(),
        names[p] == target,
        forall|m: int| 0 <= m < p ==> names[m] != target,
    ensures
        spec_position(names, target) == Some(p),
    decreases p,
{
    if p > 0 {
        assert(names[0] != target);
        assert(names.drop_first()[p - 1] == names[p]);
        assert forall|m: int| 0 <= m < p - 1 implies names.drop_first()[m] != target by {
            assert(names.drop_first()[m] == names[m + 1]);
        }
        lemma_position_found(names.drop_first(), target, p - 1);
    }
}

/// No match anywhere pins `spec_position` to nothing.
pub proof fn lemma_position_none(names: Seq<Seq<char>>, target: Seq<char>)
    requires
        forall|m: int| 0 <= m < names.len() ==> names[m] != target,
    ensures
        spec_position(names, target) is None,
    decreases names.len(),
{
    if names.len() > 0 {
        assert(names[0] != target);
        assert forall|m: int| 0 <= m < names.len() - 1 implies names.drop_first()[m]
            != target by {
            assert(names.drop_first()[m] == names[m + 1]);
        }
        lemma_position_none(names.drop_first(), target);
    }
}

/// The index toggling steps to from index `i` in a list of length `len`:
/// the next index, wrapping from the end to the start, or the previous one,
/// wrapping from the start to the end, when `reverse` holds.
pub open spec fn spec_toggle_index(len: int, i: int, reverse: bool) -> int {
    if reverse {
        if i == 0 {
            len - 1
        } else {
            i - 1
        }
    } else {
        if i + 1 == len {
            0
        } else {
            i + 1
        }
    }
}

/// The view of an optional current name.
pub open spec fn opt_name_view(c: Option<String>) -> Option<Seq<char>> {
    match c {
        Some(s) => Some(s@),
        None => None,
    }
}

/// The name toggling selects: the names are sorted lexicographically; when
/// the current name stands among them, its neighbour (as `spec_toggle_index`
/// says) is selected, and otherwise the first sorted name.
pub open spec fn spec_toggle(
    names: Seq<Seq<char>>,
    current: Option<Seq<char>>,
    reverse: bool,
) -> Seq<char> {
    let sorted = spec_sorted(names);
    let idx = match current {
        Some(c) => match spec_position(sorted, c) {
            Some(i) => spec_toggle_index(sorted.len() as int, i, reverse),
            None => 0,
        },
        None => 0,
    };
    sorted[idx]
}

/// Selects the colorscheme a toggle switches to, as `spec_toggle` says.
/// Fails with `Error::NotFound` exactly when no scheme is available.
pub fn toggle(available: &Vec<String>, current: &Option<String>, reverse: bool) -> (r: Result<
    String,
    Error,
>)
    ensures
        available@.len() == 0 ==> (r matches Err(e) && e == Error::NotFound),
        available@.len() > 0 ==> (r matches Ok(s) && s@ == spec_toggle(
            names_view(available@),
            opt_name_view(*current),
            reverse,
        )),
{
    if available.len() == 0 {
        return Err(Error::NotFound);
    }
    let mut sorted = sort_names(available);
    let ghost sv = names_view(sorted@);
    proof {
        lemma_lex_total_ordering();
        names_view(available@).lemma_sort_by_ensures(lex_leq_fn());
        sv.to_multiset_ensures();
        names_view(available@).to_multiset_ensures();
        assert(sv.len() == names_view(available@).len());
    }
    let mut index: usize = 0;
    if let Some(c) = current {
        let mut j: usize = 0;
        let mut pos: Option<usize> = None;
        while j < sorted.len()
            invariant
                j <= sorted@.len(),
                sv == names_view(sorted@),
                pos is None ==> forall|m: int| 0 <= m < j ==> sv[m] != c@,
                pos matches Some(p) ==> 0 <= p < j && sv[p as int] == c@ && forall|m: int|
                    0 <= m < p ==> sv[m] != c@,
            decreases sorted@.len() - j,
        {
            if pos.is_none() && sorted[j].eq(c) {
                pos = Some(j);
            }
            j += 1;
        }
        match pos {
            Some(p) => {
                proof {
                    lemma_position_found(sv, c@, p as int);
                }
                index = if reverse {
                    if p == 0 {
                        sorted.len() - 1
                    } else {
                        p - 1
                    }
                } else {
                    if p + 1 == sorted.len() {
                        0
                    } else {
                        p + 1
                    }
                };
            },
            None => {
                proof {
                    lemma_position_none(sv, c@);
                }
            },
        }
    }
    let name = sorted.remove(index);
    Ok(name)
}

/// The persisted record of the current scheme: the time it was applied, as
/// an RFC 3339 text.
pub struct Current {
    pub changed: String,
}

impl Current {
    /// A marker holding exactly the given timestamp text.
    pub fn new(changed: String) -> (c: Current)
        ensures
            c.changed == changed,
    {
        Current { changed }
    }
}

/// The current scheme's name, and how many whole seconds ago it was applied.
pub struct Status {
    pub file_name: String,
    pub duration: u64,
}

impl Status {
    /// A status holding exactly the given name and elapsed seconds.
    pub fn new(file_name: String, duration: u64) -> (s: Status)
        ensures
            s.file_name == file_name,
            s.duration == duration,
    {
        Status { file_name, duration }
    }
}

/// The `changed` timestamp text of a marker document, or nothing when the
/// text is not a YAML mapping with a string under that key.
pub uninterp spec fn marker_changed_of(s: Seq<char>) -> Option<Seq<char>>;

/// Relies on `serde_yaml::from_str::<Value>`, with `Value::get` and
/// `Value::as_str` converting the result: parsing the marker text yields the
/// string under its `changed` key, or nothing when the text does not parse
/// or holds no such string; the outcome depends on the text alone.
#[verifier::external_body]
fn marker_changed(text: &str) -> (r: Option<String>)
    ensures
        (r is Some) == (marker_changed_of(text@) is Some),
        r matches Some(c) ==> Some(c@) == marker_changed_of(text@),
{
    let v: serde_yaml::Value = serde_yaml::from_str(text).ok()?;
    Some(v.get("changed")?.as_str()?.to_owned())
}

/// The seconds since the Unix epoch named by an RFC 3339 timestamp text, or
/// nothing when the text is not such a timestamp.
pub uninterp spec fn rfc3339_secs_of(s: Seq<char>) -> Option<u64>;

/// Relies on `humantime::parse_rfc3339`, which accepts only years from 1970
/// on (so the parsed time never precedes the epoch), with `duration_since`
/// and `as_secs` converting the result to whole seconds; the outcome depends
/// on the text alone.
#[verifier::external_body]
fn rfc3339_secs(text: &str) -> (r: Option<u64>)
    ensures
        r == rfc3339_secs_of(text@),
{
    let t = humantime::parse_rfc3339(text).ok()?;
    let d = t.duration_since(std::time::UNIX_EPOCH).ok()?;
    Some(d.as_secs())
}

/// The marker time of a marker text: its `changed` timestamp as seconds
/// since the epoch, when both steps succeed.
pub open spec fn spec_marker_secs(s: Seq<char>) -> Option<u64> {
    match marker_changed_of(s) {
        Some(c) => rfc3339_secs_of(c),
        None => None,
    }
}

/// Reads the marker time out of a marker text, as `spec_marker_secs` says.
pub fn parse_marker_secs(text: &str) -> (r: Option<u64>)
    ensures
        r == spec_marker_secs(text@),
{
    match marker_changed(text) {
        Some(c) => rfc3339_secs(c.as_str()),
        None => None,
    }
}

/// The whole seconds elapsed from a marker time to `now_secs`: zero when the
/// marker time is unknown or lies in the future.
pub open spec fn spec_elapsed(marker_secs: Option<u64>, now_secs: u64) -> u64 {
    match marker_secs {
        Some(t) => if t <= now_secs {
            (now_secs - t) as u64
        } else {
            0
        },
        None => 0,
    }
}

/// The status of the current scheme `file_name`, applied `marker_secs` and
/// asked about at `now_secs`: the elapsed seconds degrade to zero when the
/// marker time is unknown or in the future.
pub fn status(file_name: String, marker_secs: Option<u64>, now_secs: u64) -> (s: Status)
    ensures
        s.file_name == file_name,
        s.duration == spec_elapsed(marker_secs, now_secs),
{
    let duration: u64 = match marker_secs {
        Some(t) => if t <= now_secs {
            now_secs - t
        } else {
            0
        },
        None => 0,
    };
    Status::new(file_name, duration)
}

} // verus!
