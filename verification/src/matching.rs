//! Profile selection using prefix matching.
use vstd::prelude::*;
use crate::model::{Profile, ProfileView, strings_view};
use crate::text::{chars_of, starts_with_at, strip_prefix, trim, trim_range};

verus! {

/// What a `match` entry is compared with: the entry without a `desc:`
/// prefix, trimmed.
pub open spec fn needle(m: Seq<char>) -> Seq<char> {
    trim(
        match strip_prefix(m, "desc:"@) {
            Some(x) => x,
            None => m,
        },
    )
}

/// A `match` entry hits when some description of the signature starts with
/// its needle.
pub open spec fn hits(m: Seq<char>, signature: Seq<Seq<char>>) -> bool {
    exists|i: int| 0 <= i < signature.len() && needle(m).is_prefix_of(#[trigger] signature[i])
}

pub fn match_in_signature(m: &str, signature: &[String]) -> (b: bool)
    ensures
        b == hits(m@, strings_view(signature@)),
{
    let v = chars_of(m);
    let n = v.len();
    assert(v@.subrange(0, n as int) =~= m@);
    proof {
        reveal_strlit("desc:");
    }
    let start = if starts_with_at(&v, 0, n, "desc:") {
        assert(m@.skip(5) =~= v@.subrange(5, n as int));
        5
    } else {
        0
    };
    let (a, b) = trim_range(&v, start, n);
    let needle_str = crate::text::string_of(&v, a, b);
    let ghost sig = strings_view(signature@);
    let mut i: usize = 0;
    while i < signature.len()
        invariant
            i <= signature@.len(),
            sig == strings_view(signature@),
            needle_str@ == needle(m@),
            forall|j: int| 0 <= j < i ==> !needle(m@).is_prefix_of(#[trigger] sig[j]),
        decreases signature@.len() - i,
    {
        let d = chars_of(signature[i].as_str());
        let dn = d.len();
        assert(d@.subrange(0, dn as int) =~= sig[i as int]);
        if starts_with_at(&d, 0, dn, needle_str.as_str()) {
            return true;
        }
        i += 1;
    }
    false
}

/// `str`'s order: lexicographic by character (as UTF-8 bytes compare).
pub open spec fn str_lt(a: Seq<char>, b: Seq<char>) -> bool
    decreases a.len(),
{
    if a.len() == 0 {
        b.len() > 0
    } else if b.len() == 0 {
        false
    } else if a[0] != b[0] {
        a[0] < b[0]
    } else {
        str_lt(a.drop_first(), b.drop_first())
    }
}

/// The ranking key of a profile: its `match` entries, priority and name.
pub type Key = (Seq<Seq<char>>, i64, Seq<char>);

pub open spec fn key_view(k: (&[String], i64, &str)) -> Key {
    (strings_view(k.0@), k.1, k.2@)
}

/// `(priority, match count, name)` of `a` is greater than that of `b`.
pub open spec fn outranks(a: Key, b: Key) -> bool {
    ||| a.1 > b.1
    ||| a.1 == b.1 && a.0.len() > b.0.len()
    ||| a.1 == b.1 && a.0.len() == b.0.len() && str_lt(b.2, a.2)
}

/// Every `match` entry of the key hits the signature.
pub open spec fn eligible(signature: Seq<Seq<char>>, k: Key) -> bool {
    forall|j: int| 0 <= j < k.0.len() ==> hits(#[trigger] k.0[j], signature)
}

/// The choice after the first `n` candidates: the eligible one of highest
/// rank, the later one on a tie (as `Iterator::max_by`).
pub open spec fn pick(signature: Seq<Seq<char>>, keys: Seq<Key>, n: int) -> Option<int>
    decreases n,
{
    if n <= 0 {
        None
    } else {
        let prev = pick(signature, keys, n - 1);
        if eligible(signature, keys[n - 1]) {
            match prev {
                Some(b) => if outranks(keys[b], keys[n - 1]) {
                    Some(b)
                } else {
                    Some(n - 1)
                },
                None => Some(n - 1),
            }
        } else {
            prev
        }
    }
}

/// `fields` gives `k` (as a view) for `p`.
pub open spec fn keyed_as<T, F: Fn(&T) -> (&[String], i64, &str)>(fields: F, p: &T, k: Key) -> bool {
    exists|r: (&[String], i64, &str)| call_ensures(fields, (p,), r) && key_view(r) == k
}

/// `keys` are the keys `fields` gives the items, one each.
pub open spec fn keyed_all<T, F: Fn(&T) -> (&[String], i64, &str)>(
    fields: F,
    items: Seq<T>,
    keys: Seq<Key>,
) -> bool {
    &&& keys.len() == items.len()
    &&& forall|i: int| 0 <= i < keys.len() ==> #[trigger] keyed_as(fields, &items[i], keys[i])
}

/// `str < str`.
pub fn str_less(a: &str, b: &str) -> (r: bool)
    ensures
        r == str_lt(a@, b@),
{
    let x = chars_of(a);
    let y = chars_of(b);
    let mut i: usize = 0;
    assert(x@.skip(0) =~= x@);
    assert(y@.skip(0) =~= y@);
    while i < x.len() && i < y.len() && x[i] == y[i]
        invariant
            i <= x@.len(),
            i <= y@.len(),
            x@ == a@,
            y@ == b@,
            str_lt(a@, b@) == str_lt(x@.skip(i as int), y@.skip(i as int)),
        decreases x@.len() - i,
    {
        assert(x@.skip(i as int).drop_first() =~= x@.skip(i + 1));
        assert(y@.skip(i as int).drop_first() =~= y@.skip(i + 1));
        i += 1;
    }
    if i == x.len() {
        i < y.len()
    } else if i == y.len() {
        false
    } else {
        x[i] < y[i]
    }
}

/// The eligible item of highest `(priority, match count, name)` rank, the
/// last of equally ranked ones; `fields` gives each item's `match` entries,
/// priority and name.
pub fn select_by<'a, T, F>(signature: &[String], profiles: &'a [T], fields: F) -> (r: Option<&'a T>) where
    F: Fn(&T) -> (&[String], i64, &str),

    requires
        forall|i: int| 0 <= i < profiles@.len() ==> call_requires(fields, (&profiles@[i],)),
    ensures
        exists|keys: Seq<Key>|
            {
                &&& #[trigger] keyed_all(fields, profiles@, keys)
                &&& r == match pick(strings_view(signature@), keys, profiles@.len() as int) {
                    Some(i) => Some(&profiles@[i]),
                    None => None,
                }
            },
{
    let ghost sig = strings_view(signature@);
    let ghost mut keys: Seq<Key> = Seq::empty();
    let mut best: Option<(usize, (&[String], i64, &str))> = None;
    let mut i: usize = 0;
    while i < profiles.len()
        invariant
            i <= profiles@.len(),
            sig == strings_view(signature@),
            keys.len() == i,
            forall|j: int| 0 <= j < profiles@.len() ==> call_requires(fields, (&profiles@[j],)),
            forall|j: int| 0 <= j < i ==> #[trigger] keyed_as(fields, &profiles@[j], keys[j]),
            match best {
                Some((b, k)) => pick(sig, keys, i as int) == Some(b as int) && b < i && keys[b as int]
                    == key_view(k),
                None => pick(sig, keys, i as int) is None,
            },
        decreases profiles@.len() - i,
    {
        let k = fields(&profiles[i]);
        let ghost old_keys = keys;
        proof {
            keys = keys.push(key_view(k));
            assert(call_ensures(fields, (&profiles@[i as int],), k));
            assert(keyed_as(fields, &profiles@[i as int], keys[i as int]));
            assert forall|j: int| 0 <= j < i + 1 implies #[trigger] keyed_as(
                fields,
                &profiles@[j],
                keys[j],
            ) by {
                if j < i {
                    assert(keys[j] == old_keys[j]);
                }
            }
            assert forall|n: int| 0 <= n <= i implies pick(sig, keys, n) == pick(sig, old_keys, n) by {
                lemma_pick_prefix(sig, old_keys, keys, n);
            }
        }
        let ghost ms = strings_view(k.0@);
        let mut ok = true;
        let mut j: usize = 0;
        while j < k.0.len()
            invariant
                j <= k.0@.len(),
                sig == strings_view(signature@),
                ms == strings_view(k.0@),
                ok == forall|x: int| 0 <= x < j ==> hits(#[trigger] ms[x], sig),
            decreases k.0@.len() - j,
        {
            let h = match_in_signature(k.0[j].as_str(), signature);
            assert(ms[j as int] == k.0@[j as int]@);
            if !h {
                ok = false;
            }
            j += 1;
        }
        assert(key_view(k).0 == ms);
        assert(ms.len() == k.0@.len());
        assert(ok == eligible(sig, key_view(k)));
        if ok {
            match best {
                Some((b, bk)) => {
                    let greater = bk.1 > k.1 || (bk.1 == k.1 && bk.0.len() > k.0.len()) || (bk.1
                        == k.1 && bk.0.len() == k.0.len() && str_less(k.2, bk.2));
                    assert(greater == outranks(key_view(bk), key_view(k)));
                    if !greater {
                        best = Some((i, k));
                    }
                },
                None => {
                    best = Some((i, k));
                },
            }
        }
        i += 1;
    }
    assert(keyed_all(fields, profiles@, keys));
    match best {
        Some((b, _)) => Some(&profiles[b]),
        None => None,
    }
}

/// `pick` over a prefix depends only on that prefix.
proof fn lemma_pick_prefix(signature: Seq<Seq<char>>, a: Seq<Key>, b: Seq<Key>, n: int)
    requires
        0 <= n <= a.len(),
        n <= b.len(),
        forall|j: int| 0 <= j < n ==> a[j] == b[j],
    ensures
        pick(signature, a, n) == pick(signature, b, n),
    decreases n,
{
    if n > 0 {
        lemma_pick_prefix(signature, a, b, n - 1);
        lemma_pick_range(signature, a, n - 1);
        assert(a[n - 1] == b[n - 1]);
        match pick(signature, a, n - 1) {
            Some(x) => {
                assert(a[x] == b[x]);
            },
            None => {},
        }
    }
}

/// `pick` among `n` keys gives an index below `n`.
proof fn lemma_pick_range(signature: Seq<Seq<char>>, keys: Seq<Key>, n: int)
    ensures
        pick(signature, keys, n) matches Some(b) ==> 0 <= b < n,
    decreases n,
{
    if n > 0 {
        lemma_pick_range(signature, keys, n - 1);
    }
}

/// The key a profile is ranked by.
pub open spec fn profile_key(p: ProfileView) -> Key {
    (p.matches, p.priority, p.name)
}

/// A profile's `match` entries, priority and name.
pub fn profile_fields(p: &Profile) -> (r: (&[String], i64, &str))
    ensures
        key_view(r) == profile_key(p@),
{
    (p.matches.as_slice(), p.priority, p.name.as_str())
}

/// `select`: the eligible profile of highest rank.
pub open spec fn selection(signature: Seq<Seq<char>>, profiles: Seq<ProfileView>) -> Option<int> {
    pick(signature, profiles.map_values(|p: ProfileView| profile_key(p)), profiles.len() as int)
}

pub fn select<'a>(signature: &[String], profiles: &'a [Profile]) -> (r: Option<&'a Profile>)
    ensures
        r == match selection(
            strings_view(signature@),
            profiles@.map_values(|p: Profile| p@),
        ) {
            Some(i) => Some(&profiles@[i]),
            None => None,
        },
{
    let f = profile_fields;
    let r = select_by(signature, profiles, f);
    proof {
        let pk = profiles@.map_values(|p: Profile| p@).map_values(|p: ProfileView| profile_key(p));
        let keys = choose|keys: Seq<Key>|
            {
                &&& #[trigger] keyed_all(f, profiles@, keys)
                &&& r == match pick(strings_view(signature@), keys, profiles@.len() as int) {
                    Some(i) => Some(&profiles@[i]),
                    None => None,
                }
            };
        assert forall|i: int| 0 <= i < profiles@.len() implies keys[i] == pk[i] by {
            assert(keyed_as(f, &profiles@[i], keys[i]));
        }
        assert(keys =~= pk);
    }
    r
}


proof fn lemma_str_lt_irreflexive(a: Seq<char>)
    ensures
        !str_lt(a, a),
    decreases a.len(),
{
    if a.len() > 0 {
        lemma_str_lt_irreflexive(a.drop_first());
    }
}

proof fn lemma_str_lt_transitive(a: Seq<char>, b: Seq<char>, c: Seq<char>)
    requires
        str_lt(a, b),
        str_lt(b, c),
    ensures
        str_lt(a, c),
    decreases a.len(),
{
    if a.len() > 0 && b.len() > 0 && c.len() > 0 && a[0] == b[0] && b[0] == c[0] {
        lemma_str_lt_transitive(a.drop_first(), b.drop_first(), c.drop_first());
    }
}

proof fn lemma_str_lt_total(a: Seq<char>, b: Seq<char>)
    requires
        a != b,
    ensures
        str_lt(a, b) || str_lt(b, a),
    decreases a.len(),
{
    if a.len() > 0 && b.len() > 0 {
        if a[0] == b[0] {
            if a.drop_first() == b.drop_first() {
                assert(a =~= seq![a[0]] + a.drop_first());
                assert(b =~= seq![b[0]] + b.drop_first());
            }
            lemma_str_lt_total(a.drop_first(), b.drop_first());
        }
    } else if a.len() == 0 && b.len() == 0 {
        assert(a =~= b);
    }
}

/// `str_lt` is a strict total order, spelled out on three texts.
pub proof fn lemma_str_lt_three(a: Seq<char>, b: Seq<char>, c: Seq<char>)
    ensures
        !str_lt(a, a),
        !str_lt(b, b),
        !str_lt(c, c),
        a != b ==> str_lt(a, b) || str_lt(b, a),
        b != c ==> str_lt(b, c) || str_lt(c, b),
        a != c ==> str_lt(a, c) || str_lt(c, a),
        str_lt(a, b) && str_lt(b, c) ==> str_lt(a, c),
        str_lt(c, b) && str_lt(b, a) ==> str_lt(c, a),
        str_lt(b, a) && str_lt(a, c) ==> str_lt(b, c),
        str_lt(c, a) && str_lt(a, b) ==> str_lt(c, b),
        str_lt(a, c) && str_lt(c, b) ==> str_lt(a, b),
        str_lt(b, c) && str_lt(c, a) ==> str_lt(b, a),
        str_lt(a, b) && str_lt(b, a) ==> str_lt(a, a),
        str_lt(b, c) && str_lt(c, b) ==> str_lt(b, b),
        str_lt(a, c) && str_lt(c, a) ==> str_lt(a, a),
{
    lemma_str_lt_irreflexive(a);
    lemma_str_lt_irreflexive(b);
    lemma_str_lt_irreflexive(c);
    if a != b {
        lemma_str_lt_total(a, b);
    }
    if b != c {
        lemma_str_lt_total(b, c);
    }
    if a != c {
        lemma_str_lt_total(a, c);
    }
    if str_lt(a, b) && str_lt(b, c) {
        lemma_str_lt_transitive(a, b, c);
    }
    if str_lt(c, b) && str_lt(b, a) {
        lemma_str_lt_transitive(c, b, a);
    }
    if str_lt(b, a) && str_lt(a, c) {
        lemma_str_lt_transitive(b, a, c);
    }
    if str_lt(c, a) && str_lt(a, b) {
        lemma_str_lt_transitive(c, a, b);
    }
    if str_lt(a, c) && str_lt(c, b) {
        lemma_str_lt_transitive(a, c, b);
    }
    if str_lt(b, c) && str_lt(c, a) {
        lemma_str_lt_transitive(b, c, a);
    }
    if str_lt(a, b) && str_lt(b, a) {
        lemma_str_lt_transitive(a, b, a);
    }
    if str_lt(b, c) && str_lt(c, b) {
        lemma_str_lt_transitive(b, c, b);
    }
    if str_lt(a, c) && str_lt(c, a) {
        lemma_str_lt_transitive(a, c, a);
    }
}

/// Ranks are a strict weak order: "not outranked" chains.
proof fn lemma_outranks_order(a: Key, b: Key, c: Key)
    ensures
        !outranks(a, a),
        outranks(a, b) ==> !outranks(b, a),
        !outranks(a, b) && !outranks(b, c) ==> !outranks(a, c),
{
    lemma_str_lt_three(a.2, b.2, c.2);
}

/// What `pick` chooses among the first `n` keys: an eligible key that no
/// eligible key outranks and that outranks every eligible key after it; none
/// exactly when no key is eligible.
pub proof fn lemma_pick_is_best(signature: Seq<Seq<char>>, keys: Seq<Key>, n: int)
    requires
        0 <= n <= keys.len(),
    ensures
        match pick(signature, keys, n) {
            Some(b) => {
                &&& 0 <= b < n
                &&& eligible(signature, keys[b])
                &&& forall|j: int|
                    0 <= j < n && eligible(signature, #[trigger] keys[j]) ==> !outranks(
                        keys[j],
                        keys[b],
                    )
                &&& forall|j: int|
                    b < j < n && eligible(signature, #[trigger] keys[j]) ==> outranks(
                        keys[b],
                        keys[j],
                    )
            },
            None => forall|j: int| 0 <= j < n ==> !eligible(signature, #[trigger] keys[j]),
        },
    decreases n,
{
    if n > 0 {
        lemma_pick_is_best(signature, keys, n - 1);
        let e = keys[n - 1];
        if eligible(signature, e) {
            match pick(signature, keys, n - 1) {
                Some(b) => {
                    lemma_outranks_order(keys[b], e, e);
                    if !outranks(keys[b], e) {
                        assert forall|j: int|
                            0 <= j < n && eligible(signature, #[trigger] keys[j]) implies !outranks(
                            keys[j],
                            e,
                        ) by {
                            lemma_outranks_order(keys[j], keys[b], e);
                        }
                    }
                },
                None => {
                    lemma_outranks_order(e, e, e);
                },
            }
        }
    }
}

/// `select` picks a profile all of whose `match` entries hit the signature;
/// no such profile has a higher `(priority, match count, name)` rank; of
/// equally ranked ones it is the last; and it picks none exactly when no
/// profile qualifies.
pub proof fn selection_is_best(signature: Seq<Seq<char>>, profiles: Seq<ProfileView>)
    ensures
        match selection(signature, profiles) {
            Some(i) => {
                &&& 0 <= i < profiles.len()
                &&& eligible(signature, profile_key(profiles[i]))
                &&& forall|j: int|
                    0 <= j < profiles.len() && eligible(signature, profile_key(#[trigger] profiles[j]))
                        ==> !outranks(profile_key(profiles[j]), profile_key(profiles[i]))
                &&& forall|j: int|
                    i < j < profiles.len() && eligible(signature, profile_key(#[trigger] profiles[j]))
                        ==> outranks(profile_key(profiles[i]), profile_key(profiles[j]))
            },
            None => forall|j: int|
                0 <= j < profiles.len() ==> !eligible(signature, profile_key(#[trigger] profiles[j])),
        },
{
    let keys = profiles.map_values(|p: ProfileView| profile_key(p));
    lemma_pick_is_best(signature, keys, profiles.len() as int);
    assert forall|j: int| 0 <= j < profiles.len() implies keys[j] == profile_key(
        #[trigger] profiles[j],
    ) by {}
}


} // verus!
