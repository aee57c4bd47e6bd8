//! Choosing, for every entity, a name without its identifier that no other
//! entity wanting the same name already holds.

use vstd::prelude::*;
use vstd::multiset::Multiset;
use vstd::relations::injective_on;
use vstd::set_lib::{lemma_int_range, lemma_len_subset, lemma_map_size, set_int_range};
use vstd::utf8::{decode_utf8, encode_utf8, encode_utf8_decode_utf8};
use crate::objects::{renamed_to, NotionObject};
use crate::paths::{dir_prefix, ext_part, renamed_file};

verus! {

/// The decimal digit of a value below ten.
pub open spec fn digit_char(d: nat) -> char {
    if d == 0 {
        '0'
    } else if d == 1 {
        '1'
    } else if d == 2 {
        '2'
    } else if d == 3 {
        '3'
    } else if d == 4 {
        '4'
    } else if d == 5 {
        '5'
    } else if d == 6 {
        '6'
    } else if d == 7 {
        '7'
    } else if d == 8 {
        '8'
    } else {
        '9'
    }
}

/// `n` written in decimal.
pub open spec fn decimal(n: nat) -> Seq<char>
    decreases n,
{
    if n < 10 {
        seq![digit_char(n)]
    } else {
        decimal(n / 10).push(digit_char(n % 10))
    }
}

/// Relies on the `Display` of `usize` (through `to_string`), which writes
/// the number in decimal digits.
#[verifier::external_body]
fn decimal_string(n: usize) -> (r: String)
    ensures
        r@ == decimal(n as nat),
{
    n.to_string()
}

/// `name`, or `name` followed by a space and `n` when `n` is positive.
pub open spec fn suffixed(name: Seq<char>, n: nat) -> Seq<char> {
    if n == 0 {
        name
    } else {
        name + seq![' '] + decimal(n)
    }
}

/// The path that the file at `path` would take under the name `name` with
/// suffix `n`.
pub open spec fn candidate(path: Seq<u8>, name: Seq<char>, n: nat) -> Seq<u8> {
    renamed_file(path, encode_utf8(suffixed(name, n)))
}

proof fn lemma_decimal_len(n: nat)
    ensures
        decimal(n).len() >= 1,
        n >= 10 ==> decimal(n).len() >= 2,
    decreases n,
{
    if n >= 10 {
        lemma_decimal_len(n / 10);
    }
}

proof fn lemma_digit_injective(a: nat, b: nat)
    requires
        a < 10,
        b < 10,
        digit_char(a) == digit_char(b),
    ensures
        a == b,
{
}

proof fn lemma_decimal_injective(a: nat, b: nat)
    requires
        decimal(a) == decimal(b),
    ensures
        a == b,
    decreases a,
{
    lemma_decimal_len(a);
    lemma_decimal_len(b);
    if a < 10 && b < 10 {
        assert(decimal(a) == seq![digit_char(a)]);
        assert(decimal(b) == seq![digit_char(b)]);
        assert(decimal(a)[0] == decimal(b)[0]);
        assert(seq![digit_char(a)][0] == digit_char(a));
        assert(seq![digit_char(b)][0] == digit_char(b));
        lemma_digit_injective(a, b);
    } else if a >= 10 && b >= 10 {
        assert(decimal(a) == decimal((a / 10) as nat).push(digit_char(a % 10)));
        assert(decimal(b) == decimal((b / 10) as nat).push(digit_char(b % 10)));
        assert(decimal(a).last() == decimal(b).last());
        assert(decimal(a).last() == digit_char(a % 10));
        assert(decimal(b).last() == digit_char(b % 10));
        lemma_digit_injective(a % 10, b % 10);
        assert(decimal(a).drop_last() =~= decimal((a / 10) as nat));
        assert(decimal(b).drop_last() =~= decimal((b / 10) as nat));
        lemma_decimal_injective((a / 10) as nat, (b / 10) as nat);
    }
}

proof fn lemma_suffixed_injective(name: Seq<char>, a: nat, b: nat)
    requires
        suffixed(name, a) == suffixed(name, b),
    ensures
        a == b,
{
    lemma_decimal_len(a);
    lemma_decimal_len(b);
    if a > 0 && b > 0 {
        let k = name.len() as int + 1;
        assert(suffixed(name, a).subrange(k, suffixed(name, a).len() as int) =~= decimal(a));
        assert(suffixed(name, b).subrange(k, suffixed(name, b).len() as int) =~= decimal(b));
        lemma_decimal_injective(a, b);
    } else if a > 0 || b > 0 {
        assert(suffixed(name, a).len() != suffixed(name, b).len());
    }
}

/// Distinct suffixes give distinct candidate paths.
proof fn lemma_candidate_injective(path: Seq<u8>, name: Seq<char>, a: nat, b: nat)
    requires
        candidate(path, name, a) == candidate(path, name, b),
    ensures
        a == b,
{
    let d = dir_prefix(path);
    let e = ext_part(path);
    let sa = encode_utf8(suffixed(name, a));
    let sb = encode_utf8(suffixed(name, b));
    let ca = candidate(path, name, a);
    assert(ca.len() == d.len() + sa.len() + e.len());
    assert(sa.len() == sb.len());
    assert(sa =~= ca.subrange(d.len() as int, d.len() + sa.len() as int));
    assert(sb =~= ca.subrange(d.len() as int, d.len() + sb.len() as int));
    encode_utf8_decode_utf8(suffixed(name, a));
    encode_utf8_decode_utf8(suffixed(name, b));
    assert(decode_utf8(sa) == decode_utf8(sb));
    lemma_suffixed_injective(name, a, b);
}

/// If the candidates for suffixes `0..=n` are all taken, there are more
/// than `n` taken paths.
proof fn lemma_pigeonhole(claimed: Seq<Seq<u8>>, path: Seq<u8>, name: Seq<char>, n: nat)
    requires
        forall|m: nat| m <= n ==> claimed.contains(#[trigger] candidate(path, name, m)),
    ensures
        n < claimed.len(),
{
    let f = |m: int| candidate(path, name, m as nat);
    let dom = set_int_range(0, n as int + 1);
    lemma_int_range(0, n as int + 1);
    assert(injective_on(f, dom)) by {
        assert forall|x1: int, x2: int| dom.contains(x1) && dom.contains(x2) && #[trigger] f(x1) == #[trigger] f(x2) implies x1 == x2 by {
            lemma_candidate_injective(path, name, x1 as nat, x2 as nat);
        }
    }
    let img = dom.map(f);
    lemma_map_size(dom, img, f);
    assert(img.subset_of(claimed.to_set())) by {
        assert forall|x: Seq<u8>| img.contains(x) implies claimed.to_set().contains(x) by {
            let m = choose|m: int| dom.contains(m) && f(m) == x;
            assert(claimed.contains(candidate(path, name, m as nat)));
        }
    }
    claimed.lemma_cardinality_of_set();
    lemma_len_subset(img, claimed.to_set());
}

} // verus!

verus! {

/// The sort key of an entity: the bytes of its identifier (nothing for
/// other files).
pub open spec fn uuid_key(o: NotionObject) -> Seq<u8> {
    if o.renamable() {
        encode_utf8(o.info().uuid@)
    } else {
        Seq::empty()
    }
}

/// `a` comes strictly before `b` in lexicographic byte order.
pub open spec fn lex_lt(a: Seq<u8>, b: Seq<u8>) -> bool
    decreases a.len(),
{
    if a.len() == 0 {
        b.len() > 0
    } else if b.len() == 0 {
        false
    } else if a[0] != b[0] {
        a[0] < b[0]
    } else {
        lex_lt(a.drop_first(), b.drop_first())
    }
}

/// Inserts `o` into `s` just before the first element whose key is not
/// smaller.
pub open spec fn insert_by_uuid(o: NotionObject, s: Seq<NotionObject>) -> Seq<NotionObject>
    decreases s.len(),
{
    if s.len() == 0 {
        seq![o]
    } else if !lex_lt(uuid_key(s[0]), uuid_key(o)) {
        seq![o] + s
    } else {
        seq![s[0]] + insert_by_uuid(o, s.drop_first())
    }
}

/// `s` sorted by identifier; entities with equal keys keep their order.
pub open spec fn sort_by_uuid(s: Seq<NotionObject>) -> Seq<NotionObject>
    decreases s.len(),
{
    if s.len() == 0 {
        Seq::empty()
    } else {
        insert_by_uuid(s[0], sort_by_uuid(s.drop_first()))
    }
}

/// `n` is the least suffix whose candidate path is not in `claimed`.
pub open spec fn is_free_suffix(claimed: Seq<Seq<u8>>, path: Seq<u8>, name: Seq<char>, n: nat) -> bool {
    &&& !claimed.contains(candidate(path, name, n))
    &&& forall|m: nat| m < n ==> claimed.contains(#[trigger] candidate(path, name, m))
}

/// The least suffix that gives the file at `path` a path not in `claimed`.
pub open spec fn free_suffix(claimed: Seq<Seq<u8>>, path: Seq<u8>, name: Seq<char>) -> nat {
    choose|n: nat| is_free_suffix(claimed, path, name, n)
}

/// The paths taken by the entities of `objs` that are renamed, one after
/// the other, each with the least free suffix.
pub open spec fn claims_after(objs: Seq<NotionObject>, name: Seq<char>) -> Seq<Seq<u8>>
    decreases objs.len(),
{
    if objs.len() == 0 {
        Seq::empty()
    } else {
        let c = claims_after(objs.drop_last(), name);
        let o = objs.last();
        if o.renamable() {
            let p = encode_utf8(o.path_of());
            c.push(candidate(p, name, free_suffix(c, p, name)))
        } else {
            c
        }
    }
}

/// The name given to the `i`-th entity of `objs` when they are renamed in
/// that order.
pub open spec fn resolved_name(objs: Seq<NotionObject>, name: Seq<char>, i: int) -> Seq<char> {
    suffixed(
        name,
        free_suffix(claims_after(objs.subrange(0, i), name), encode_utf8(objs[i].path_of()), name),
    )
}

/// The path that the `i`-th entity of `objs` takes when they are renamed in
/// that order.
pub open spec fn resolved_path(objs: Seq<NotionObject>, name: Seq<char>, i: int) -> Seq<u8> {
    candidate(encode_utf8(objs[i].path_of()), name, free_suffix(claims_after(objs.subrange(0, i), name), encode_utf8(objs[i].path_of()), name))
}

/// A least free suffix exists.
pub proof fn lemma_free_suffix_exists(claimed: Seq<Seq<u8>>, path: Seq<u8>, name: Seq<char>, m: nat)
    requires
        forall|k: nat| k < m ==> claimed.contains(#[trigger] candidate(path, name, k)),
    ensures
        is_free_suffix(claimed, path, name, free_suffix(claimed, path, name)),
    decreases claimed.len() - m,
{
    if !claimed.contains(candidate(path, name, m)) {
        assert(is_free_suffix(claimed, path, name, m));
    } else {
        assert forall|k: nat| k <= m implies claimed.contains(#[trigger] candidate(path, name, k)) by {
            if k < m {
            }
        }
        lemma_pigeonhole(claimed, path, name, m);
        assert forall|k: nat| k < m + 1 implies claimed.contains(#[trigger] candidate(path, name, k)) by {
            if k < m {
            }
        }
        lemma_free_suffix_exists(claimed, path, name, m + 1);
    }
}

/// Does `a` come strictly before `b` in lexicographic byte order?
pub fn lex_less(a: &[u8], b: &[u8]) -> (r: bool)
    ensures
        r == lex_lt(a@, b@),
{
    let mut i: usize = 0;
    assert(a@.subrange(0, a@.len() as int) =~= a@);
    assert(b@.subrange(0, b@.len() as int) =~= b@);
    while i < a.len() && i < b.len()
        invariant
            i <= a@.len(),
            i <= b@.len(),
            lex_lt(a@, b@) == lex_lt(a@.subrange(i as int, a@.len() as int), b@.subrange(i as int, b@.len() as int)),
        decreases a@.len() - i,
    {
        let ghost sa = a@.subrange(i as int, a@.len() as int);
        let ghost sb = b@.subrange(i as int, b@.len() as int);
        assert(sa[0] == a@[i as int]);
        assert(sb[0] == b@[i as int]);
        if a[i] != b[i] {
            return a[i] < b[i];
        }
        assert(sa.drop_first() =~= a@.subrange(i + 1, a@.len() as int));
        assert(sb.drop_first() =~= b@.subrange(i + 1, b@.len() as int));
        i = i + 1;
    }
    i == a.len() && i < b.len()
}

/// The sort key of `o`.
fn uuid_key_of(o: &NotionObject) -> (r: Vec<u8>)
    ensures
        r@ == uuid_key(*o),
{
    match o {
        NotionObject::Page(info) | NotionObject::Database(info, _) => crate::encoding::text_bytes(info.uuid.as_str()),
        _ => Vec::new(),
    }
}

proof fn lemma_insert_by_uuid_at(o: NotionObject, s: Seq<NotionObject>, p: int)
    requires
        0 <= p <= s.len(),
        forall|k: int| 0 <= k < p ==> lex_lt(uuid_key(#[trigger] s[k]), uuid_key(o)),
        p < s.len() ==> !lex_lt(uuid_key(s[p]), uuid_key(o)),
    ensures
        insert_by_uuid(o, s) == s.insert(p, o),
    decreases s.len(),
{
    if s.len() == 0 {
        assert(s.insert(p, o) =~= seq![o]);
    } else if !lex_lt(uuid_key(s[0]), uuid_key(o)) {
        assert(p == 0);
        assert(s.insert(p, o) =~= seq![o] + s);
    } else {
        let t = s.drop_first();
        assert forall|k: int| 0 <= k < p - 1 implies lex_lt(uuid_key(#[trigger] t[k]), uuid_key(o)) by {
            assert(t[k] == s[k + 1]);
        }
        lemma_insert_by_uuid_at(o, t, p - 1);
        assert(s.insert(p, o) =~= seq![s[0]] + t.insert(p - 1, o));
    }
}

/// Sorts `objects` by identifier, stably.
pub fn sort_objects_by_uuid(objects: Vec<NotionObject>) -> (r: Vec<NotionObject>)
    ensures
        r@ == sort_by_uuid(objects@),
{
    let ghost all = objects@;
    let mut rest = objects;
    let mut sorted: Vec<NotionObject> = Vec::new();
    assert(all.subrange(all.len() as int, all.len() as int) =~= Seq::<NotionObject>::empty());
    while rest.len() > 0
        invariant
            rest@ == all.subrange(0, rest@.len() as int),
            rest@.len() <= all.len(),
            sorted@ == sort_by_uuid(all.subrange(rest@.len() as int, all.len() as int)),
        decreases rest@.len(),
    {
        let ghost n = rest@.len();
        let o = rest.pop().unwrap();
        let key = uuid_key_of(&o);
        let mut p: usize = 0;
        while p < sorted.len() && lex_less(uuid_key_of(&sorted[p]).as_slice(), key.as_slice())
            invariant
                p <= sorted@.len(),
                key@ == uuid_key(o),
                forall|k: int| 0 <= k < p ==> lex_lt(uuid_key(#[trigger] sorted@[k]), uuid_key(o)),
            decreases sorted@.len() - p,
        {
            p = p + 1;
        }
        proof {
            lemma_insert_by_uuid_at(o, sorted@, p as int);
            let tail = all.subrange(n - 1, all.len() as int);
            assert(tail.drop_first() =~= all.subrange(n as int, all.len() as int));
            assert(tail[0] == o);
        }
        sorted.insert(p, o);
    }
    assert(all.subrange(0, all.len() as int) =~= all);
    sorted
}

} // verus!

verus! {

/// The paths held by `claimed`.
pub open spec fn claims_view(claimed: Seq<Vec<u8>>) -> Seq<Seq<u8>> {
    claimed.map_values(|v: Vec<u8>| v@)
}

/// Does `claimed` hold `path`?
fn is_claimed(claimed: &Vec<Vec<u8>>, path: &Vec<u8>) -> (r: bool)
    ensures
        r == claims_view(claimed@).contains(path@),
{
    let mut k: usize = 0;
    while k < claimed.len()
        invariant
            k <= claimed@.len(),
            forall|j: int| 0 <= j < k ==> claimed@[j]@ != path@,
        decreases claimed@.len() - k,
    {
        if claimed[k].len() == path.len() && crate::bytes::matches_at(claimed[k].as_slice(), path.as_slice(), 0) {
            assert(claimed@[k as int]@.subrange(0, path@.len() as int) =~= claimed@[k as int]@);
            assert(claims_view(claimed@)[k as int] == path@);
            return true;
        }
        proof {
            if claimed@[k as int]@ == path@ {
                assert(claimed@[k as int]@.subrange(0, path@.len() as int) =~= path@);
            }
        }
        k = k + 1;
    }
    proof {
        if claims_view(claimed@).contains(path@) {
            let j = choose|j: int| 0 <= j < claims_view(claimed@).len() && claims_view(claimed@)[j] == path@;
            assert(claimed@[j]@ == path@);
        }
    }
    false
}

/// `name`, or `name`, a space and `n` when `n` is positive.
fn suffixed_name(name: &String, n: usize) -> (r: String)
    ensures
        r@ == suffixed(name@, n as nat),
{
    if n == 0 {
        name.clone()
    } else {
        let with_space = name.clone().concat(" ");
        let r = with_space.concat(decimal_string(n).as_str());
        proof {
            reveal_strlit(" ");
        }
        assert(r@ =~= suffixed(name@, n as nat));
        r
    }
}

proof fn lemma_free_suffix_unique(claimed: Seq<Seq<u8>>, path: Seq<u8>, name: Seq<char>, a: nat, b: nat)
    requires
        is_free_suffix(claimed, path, name, a),
        is_free_suffix(claimed, path, name, b),
    ensures
        a == b,
{
    if a < b {
        assert(claimed.contains(candidate(path, name, a)));
    } else if b < a {
        assert(claimed.contains(candidate(path, name, b)));
    }
}

/// Names the entities of a group that wants `name`, taken in order of
/// identifier: each takes `name`, or `name` and the least number that gives
/// its file a path that no entity before it took.
fn resolve_group(objects: Vec<NotionObject>, name: &String) -> (r: Vec<NotionObject>)
    ensures
        r@.len() == objects@.len(),
        forall|i: int|
            0 <= i < r@.len() ==> renamed_to(
                #[trigger] r@[i],
                sort_by_uuid(objects@)[i],
                resolved_name(sort_by_uuid(objects@), name@, i),
            ),
{
    let ghost n0 = objects@.len();
    let sorted = sort_objects_by_uuid(objects);
    let ghost s = sorted@;
    proof {
        lemma_sort_by_uuid_len(objects@);
    }
    let mut rest = sorted;
    let mut out: Vec<NotionObject> = Vec::new();
    let mut claimed: Vec<Vec<u8>> = Vec::new();
    assert(s.subrange(0, s.len() as int) =~= s);
    assert(claims_view(claimed@) =~= Seq::<Seq<u8>>::empty());
    assert(s.subrange(0, 0) =~= Seq::<NotionObject>::empty());
    while rest.len() > 0
        invariant
            s.len() == n0,
            out@.len() <= s.len(),
            rest@ == s.subrange(out@.len() as int, s.len() as int),
            claims_view(claimed@) == claims_after(s.subrange(0, out@.len() as int), name@),
            forall|k: int| 0 <= k < out@.len() ==> renamed_to(#[trigger] out@[k], s[k], resolved_name(s, name@, k)),
        decreases rest@.len(),
    {
        let ghost k = out@.len() as int;
        let ghost before_rest = rest@;
        let mut o = rest.remove(0);
        assert(o == s[k]);
        assert(rest@ =~= s.subrange(k + 1, s.len() as int));
        let ghost pre = s.subrange(0, k);
        assert(s.subrange(0, k + 1).drop_last() =~= pre);
        assert(s.subrange(0, k + 1).last() == o);
        let ghost claims = claims_view(claimed@);
        let ghost ov = o;
        if o.is_renamable() {
            let path = crate::encoding::text_bytes(o.get_path().as_str());
            let mut n: usize = 0;
            let mut cand = crate::paths::renamed_file_path(
                path.as_slice(),
                crate::encoding::text_bytes(suffixed_name(name, 0).as_str()).as_slice(),
            );
            let cl = claimed.len();
            while is_claimed(&claimed, &cand)
                invariant
                    cl == claims.len(),
                    claims == claims_view(claimed@),
                    path@ == encode_utf8(ov.path_of()),
                    cand@ == candidate(path@, name@, n as nat),
                    forall|m: nat| m < n ==> claims.contains(#[trigger] candidate(path@, name@, m)),
                decreases claims.len() - n,
            {
                proof {
                    assert forall|m: nat| m <= n implies claims.contains(#[trigger] candidate(path@, name@, m)) by {
                        if m < n {
                        }
                    }
                    lemma_pigeonhole(claims, path@, name@, n as nat);
                }
                n = n + 1;
                cand = crate::paths::renamed_file_path(
                    path.as_slice(),
                    crate::encoding::text_bytes(suffixed_name(name, n).as_str()).as_slice(),
                );
            }
            proof {
                assert(is_free_suffix(claims, path@, name@, n as nat));
                lemma_free_suffix_exists(claims, path@, name@, 0);
                lemma_free_suffix_unique(claims, path@, name@, n as nat, free_suffix(claims, path@, name@));
            }
            claimed.push(cand);
            assert(claims_view(claimed@) =~= claims.push(cand@));
            o.try_set_new_name(suffixed_name(name, n));
        }
        out.push(o);
    }
    out
}

proof fn lemma_insert_by_uuid_len(o: NotionObject, s: Seq<NotionObject>)
    ensures
        insert_by_uuid(o, s).len() == s.len() + 1,
    decreases s.len(),
{
    if s.len() > 0 && lex_lt(uuid_key(s[0]), uuid_key(o)) {
        lemma_insert_by_uuid_len(o, s.drop_first());
    }
}

proof fn lemma_sort_by_uuid_len(s: Seq<NotionObject>)
    ensures
        sort_by_uuid(s).len() == s.len(),
    decreases s.len(),
{
    if s.len() > 0 {
        lemma_sort_by_uuid_len(s.drop_first());
        lemma_insert_by_uuid_len(s[0], sort_by_uuid(s.drop_first()));
    }
}

} // verus!

verus! {

/// The entities that want one display name.
pub struct NameGroup {
    pub name: String,
    pub objects: Vec<NotionObject>,
}

/// Each group as its name and its entities.
pub open spec fn groups_view(gs: Seq<NameGroup>) -> Seq<(Seq<char>, Seq<NotionObject>)> {
    gs.map_values(|g: NameGroup| (g.name@, g.objects@))
}

/// Index of the first group named `n`, or -1.
pub open spec fn find_group(gv: Seq<(Seq<char>, Seq<NotionObject>)>, n: Seq<char>) -> int
    decreases gv.len(),
{
    if gv.len() == 0 {
        -1
    } else if gv[0].0 == n {
        0
    } else if find_group(gv.drop_first(), n) < 0 {
        -1
    } else {
        find_group(gv.drop_first(), n) + 1
    }
}

/// `gv` with `o` added at the end of the group of its name, or in a new
/// group at the end.
pub open spec fn add_to_groups(gv: Seq<(Seq<char>, Seq<NotionObject>)>, o: NotionObject) -> Seq<(Seq<char>, Seq<NotionObject>)> {
    let i = find_group(gv, o.name_of());
    if i >= 0 {
        gv.update(i, (gv[i].0, gv[i].1.push(o)))
    } else {
        gv.push((o.name_of(), seq![o]))
    }
}

/// `objs` grouped by the name they want, groups in order of first
/// appearance, entities in their order.
pub open spec fn grouped_by_name(objs: Seq<NotionObject>) -> Seq<(Seq<char>, Seq<NotionObject>)>
    decreases objs.len(),
{
    if objs.len() == 0 {
        Seq::empty()
    } else {
        add_to_groups(grouped_by_name(objs.drop_last()), objs.last())
    }
}

/// The entities `after` of a group named `name` are those of `before`
/// renamed: a lone entity takes `name`; several take, in order of
/// identifier, the names that `resolved_name` gives.
pub open spec fn group_resolved(after: Seq<NotionObject>, before: Seq<NotionObject>, name: Seq<char>) -> bool {
    if before.len() == 1 {
        after.len() == 1 && renamed_to(after[0], before[0], name)
    } else {
        let s = sort_by_uuid(before);
        &&& after.len() == s.len()
        &&& forall|i: int| 0 <= i < s.len() ==> renamed_to(#[trigger] after[i], s[i], resolved_name(s, name, i))
    }
}

proof fn lemma_find_group_first(gv: Seq<(Seq<char>, Seq<NotionObject>)>, n: Seq<char>, k: int)
    requires
        -1 <= k < gv.len(),
        k >= 0 ==> gv[k].0 == n,
        forall|j: int| 0 <= j < gv.len() && (k < 0 || j < k) ==> gv[j].0 != n,
    ensures
        find_group(gv, n) == k,
    decreases gv.len(),
{
    if gv.len() > 0 && k != 0 {
        let t = gv.drop_first();
        assert forall|j: int| 0 <= j < t.len() && (k - 1 < 0 || j < k - 1) implies t[j].0 != n by {
            assert(t[j] == gv[j + 1]);
        }
        if k > 0 {
            lemma_find_group_first(t, n, k - 1);
        } else {
            assert(gv[0].0 != n);
            lemma_find_group_first(t, n, -1);
        }
    }
}

/// Resolves the names of every group: a lone entity takes the name of its
/// group; several entities that want one name are renamed in order of
/// identifier, each with the least suffix that keeps its file's path free.
pub fn resolve_new_names(all_objects_by_name: &mut Vec<NameGroup>)
    ensures
        final(all_objects_by_name)@.len() == old(all_objects_by_name)@.len(),
        forall|i: int|
            0 <= i < old(all_objects_by_name)@.len() ==> (#[trigger] final(all_objects_by_name)@[i]).name
                == old(all_objects_by_name)@[i].name && group_resolved(
                final(all_objects_by_name)@[i].objects@,
                old(all_objects_by_name)@[i].objects@,
                old(all_objects_by_name)@[i].name@,
            ),
{
    let ghost all = all_objects_by_name@;
    let n = all_objects_by_name.len();
    let mut i: usize = 0;
    assert(all.subrange(0, n as int) =~= all);
    while i < n
        invariant
            n == all.len(),
            i <= n,
            all_objects_by_name@.len() == n,
            all_objects_by_name@.subrange(0, (n - i) as int) == all.subrange(i as int, n as int),
            forall|k: int|
                0 <= k < i ==> (#[trigger] all_objects_by_name@[(n - i) + k]).name == all[k].name
                    && group_resolved(all_objects_by_name@[(n - i) + k].objects@, all[k].objects@, all[k].name@),
        decreases n - i,
    {
        let ghost before = all_objects_by_name@;
        let g = all_objects_by_name.remove(0);
        assert(g == all[i as int]) by {
            assert(before.subrange(0, (n - i) as int)[0] == before[0]);
        }
        let NameGroup { name, objects } = g;
        let ghost gobjs = objects@;
        let resolved = if objects.len() == 1 {
            let mut objects = objects;
            let mut o = objects.pop().unwrap();
            assert(o == gobjs[0]);
            o.try_set_new_name(name.clone());
            objects.push(o);
            assert(objects@ =~= seq![o]);
            assert(objects@[0] == o);
            assert(group_resolved(objects@, gobjs, name@));
            objects
        } else {
            let r = resolve_group(objects, &name);
            proof {
                lemma_sort_by_uuid_len(gobjs);
            }
            assert(group_resolved(r@, gobjs, name@));
            r
        };
        assert(group_resolved(resolved@, gobjs, name@));
        all_objects_by_name.push(NameGroup { name, objects: resolved });
        assert(all_objects_by_name@[n - 1].objects@ == resolved@);
        assert(all_objects_by_name@.subrange(0, (n - i - 1) as int) =~= all.subrange(i + 1, n as int)) by {
            assert forall|j: int| 0 <= j < n - i - 1 implies all_objects_by_name@[j] == all[i + 1 + j] by {
                assert(all_objects_by_name@[j] == before[j + 1]);
                assert(before.subrange(0, (n - i) as int)[j + 1] == all.subrange(i as int, n as int)[j + 1]);
            }
        }
        assert forall|k: int| 0 <= k < i + 1 implies (#[trigger] all_objects_by_name@[(n - (i + 1)) + k]).name == all[k].name
            && group_resolved(all_objects_by_name@[(n - (i + 1)) + k].objects@, all[k].objects@, all[k].name@) by {
            if k < i {
                assert(all_objects_by_name@[(n - (i + 1)) + k] == before[(n - i) + k]);
            }
        }
        i = i + 1;
    }
    assert forall|k: int| 0 <= k < n implies (#[trigger] all_objects_by_name@[k]).name == all[k].name
        && group_resolved(all_objects_by_name@[k].objects@, all[k].objects@, all[k].name@) by {
        assert(all_objects_by_name@[(n - i) + k] == all_objects_by_name@[k]);
    }
}

impl NotionObject {
    /// Groups the entities by the name that they want.
    pub fn build_map_by_name(notion_objects: Vec<NotionObject>) -> (r: Vec<NameGroup>)
        ensures
            groups_view(r@) == grouped_by_name(notion_objects@),
    {
        let ghost all = notion_objects@;
        let mut rest = notion_objects;
        let mut groups: Vec<NameGroup> = Vec::new();
        assert(all.subrange(0, 0) =~= Seq::<NotionObject>::empty());
        assert(all.subrange(0, all.len() as int) =~= all);
        assert(groups_view(groups@) =~= Seq::<(Seq<char>, Seq<NotionObject>)>::empty());
        while rest.len() > 0
            invariant
                rest@.len() <= all.len(),
                rest@ == all.subrange(all.len() - rest@.len(), all.len() as int),
                groups_view(groups@) == grouped_by_name(all.subrange(0, all.len() - rest@.len())),
            decreases rest@.len(),
        {
            let ghost done = all.len() - rest@.len();
            let o = rest.remove(0);
            assert(o == all[done]);
            assert(rest@ =~= all.subrange(done + 1, all.len() as int));
            assert(all.subrange(0, done + 1).drop_last() =~= all.subrange(0, done));
            assert(all.subrange(0, done + 1).last() == o);
            let name = o.get_name();
            let ghost gv = groups_view(groups@);
            let mut k: usize = 0;
            while k < groups.len() && groups[k].name != name
                invariant
                    k <= groups@.len(),
                    gv == groups_view(groups@),
                    forall|j: int| 0 <= j < k ==> gv[j].0 != name@,
                decreases groups@.len() - k,
            {
                assert(gv[k as int].0 == groups@[k as int].name@);
                k = k + 1;
            }
            if k < groups.len() {
                assert(gv[k as int].0 == name@);
                proof {
                    lemma_find_group_first(gv, name@, k as int);
                }
                let mut g = groups.remove(k);
                g.objects.push(o);
                groups.insert(k, g);
                assert(groups_view(groups@) =~= gv.update(k as int, (gv[k as int].0, gv[k as int].1.push(o))));
            } else {
                proof {
                    lemma_find_group_first(gv, name@, -1);
                }
                let mut objects: Vec<NotionObject> = Vec::new();
                objects.push(o);
                groups.push(NameGroup { name, objects });
                assert(groups_view(groups@) =~= gv.push((o.name_of(), seq![o])));
            }
        }
        groups
    }

    /// Resolves the names of every group (see `resolve_new_names`).
    pub fn find_new_names(all_objects_by_name: &mut Vec<NameGroup>)
        ensures
            final(all_objects_by_name)@.len() == old(all_objects_by_name)@.len(),
            forall|i: int|
                0 <= i < old(all_objects_by_name)@.len() ==> (#[trigger] final(all_objects_by_name)@[i]).name
                    == old(all_objects_by_name)@[i].name && group_resolved(
                    final(all_objects_by_name)@[i].objects@,
                    old(all_objects_by_name)@[i].objects@,
                    old(all_objects_by_name)@[i].name@,
                ),
    {
        resolve_new_names(all_objects_by_name);
    }
}

} // verus!

verus! {

proof fn lemma_claims_grow(objs: Seq<NotionObject>, name: Seq<char>, i: int, j: int)
    requires
        0 <= i < j <= objs.len(),
        objs[i].renamable(),
    ensures
        claims_after(objs.subrange(0, j), name).contains(resolved_path(objs, name, i)),
    decreases j - i,
{
    let pre = objs.subrange(0, j);
    assert(pre.drop_last() =~= objs.subrange(0, j - 1));
    assert(pre.last() == objs[j - 1]);
    let c = claims_after(objs.subrange(0, j - 1), name);
    if j == i + 1 {
        assert(claims_after(pre, name) == c.push(resolved_path(objs, name, i)));
        assert(claims_after(pre, name)[c.len() as int] == resolved_path(objs, name, i));
    } else {
        lemma_claims_grow(objs, name, i, j - 1);
        let x = resolved_path(objs, name, i);
        let k = choose|k: int| 0 <= k < c.len() && c[k] == x;
        if objs[j - 1].renamable() {
            assert(claims_after(pre, name)[k] == x);
        } else {
            assert(claims_after(pre, name) == c);
        }
    }
}

/// Within a group, no two renamed entities take the same path. Hence two
/// of them that share their directory and extension get different names.
pub proof fn law_resolved_paths_distinct(objs: Seq<NotionObject>, name: Seq<char>, i: int, j: int)
    requires
        0 <= i < j < objs.len(),
        objs[i].renamable(),
        objs[j].renamable(),
    ensures
        resolved_path(objs, name, i) != resolved_path(objs, name, j),
        dir_prefix(encode_utf8(objs[i].path_of())) == dir_prefix(encode_utf8(objs[j].path_of()))
            && ext_part(encode_utf8(objs[i].path_of())) == ext_part(encode_utf8(objs[j].path_of()))
            ==> resolved_name(objs, name, i) != resolved_name(objs, name, j),
{
    let cj = claims_after(objs.subrange(0, j), name);
    let pj = encode_utf8(objs[j].path_of());
    lemma_claims_grow(objs, name, i, j);
    lemma_free_suffix_exists(cj, pj, name, 0);
    assert(!cj.contains(resolved_path(objs, name, j)));
}

} // verus!

verus! {

broadcast use vstd::seq_lib::group_to_multiset_ensures;

/// No entity of `s` has a smaller key than one before it.
pub open spec fn sorted_by_uuid(s: Seq<NotionObject>) -> bool {
    forall|i: int, j: int| 0 <= i < j < s.len() ==> !lex_lt(uuid_key(#[trigger] s[j]), uuid_key(#[trigger] s[i]))
}

/// Entities of `s` with the same key are the same entity.
pub open spec fn keys_distinct(s: Seq<NotionObject>) -> bool {
    forall|i: int, j: int|
        0 <= i < s.len() && 0 <= j < s.len() && uuid_key(#[trigger] s[i]) == uuid_key(#[trigger] s[j]) ==> s[i] == s[j]
}

proof fn lemma_lex_irreflexive(a: Seq<u8>)
    ensures
        !lex_lt(a, a),
    decreases a.len(),
{
    if a.len() > 0 {
        lemma_lex_irreflexive(a.drop_first());
    }
}

proof fn lemma_lex_total(a: Seq<u8>, b: Seq<u8>)
    ensures
        a == b || lex_lt(a, b) || lex_lt(b, a),
    decreases a.len(),
{
    if a.len() == 0 && b.len() == 0 {
        assert(a =~= b);
    } else if a.len() > 0 && b.len() > 0 && a[0] == b[0] {
        lemma_lex_total(a.drop_first(), b.drop_first());
        if a.drop_first() == b.drop_first() {
            assert(a.drop_first().len() == b.drop_first().len());
            assert(a.len() == b.len());
            assert forall|i: int| 0 <= i < a.len() implies a[i] == b[i] by {
                if i > 0 {
                    assert(a[i] == a.drop_first()[i - 1]);
                    assert(b[i] == b.drop_first()[i - 1]);
                }
            }
            assert(a =~= b);
        }
    }
}

proof fn lemma_lex_transitive(a: Seq<u8>, b: Seq<u8>, c: Seq<u8>)
    requires
        lex_lt(a, b),
        lex_lt(b, c),
    ensures
        lex_lt(a, c),
    decreases a.len(),
{
    if a.len() > 0 && a[0] == b[0] && b[0] == c[0] {
        lemma_lex_transitive(a.drop_first(), b.drop_first(), c.drop_first());
    }
}

proof fn lemma_lex_not_lt_transitive(a: Seq<u8>, b: Seq<u8>, c: Seq<u8>)
    requires
        !lex_lt(a, b),
        !lex_lt(b, c),
    ensures
        !lex_lt(a, c),
{
    if lex_lt(a, c) {
        lemma_lex_total(a, b);
        if lex_lt(b, a) {
            lemma_lex_transitive(b, a, c);
        }
    }
}

proof fn lemma_lex_asymmetric(a: Seq<u8>, b: Seq<u8>)
    requires
        lex_lt(a, b),
    ensures
        !lex_lt(b, a),
{
    if lex_lt(b, a) {
        lemma_lex_transitive(a, b, a);
        lemma_lex_irreflexive(a);
    }
}

proof fn lemma_insert_by_uuid_position(o: NotionObject, s: Seq<NotionObject>) -> (p: int)
    ensures
        0 <= p <= s.len(),
        insert_by_uuid(o, s) == s.insert(p, o),
    decreases s.len(),
{
    if s.len() == 0 {
        assert(s.insert(0, o) =~= seq![o]);
        0
    } else if !lex_lt(uuid_key(s[0]), uuid_key(o)) {
        assert(s.insert(0, o) =~= seq![o] + s);
        0
    } else {
        let q = lemma_insert_by_uuid_position(o, s.drop_first());
        assert(s.insert(q + 1, o) =~= seq![s[0]] + s.drop_first().insert(q, o));
        q + 1
    }
}

proof fn lemma_insert_by_uuid_sorted(o: NotionObject, s: Seq<NotionObject>)
    requires
        sorted_by_uuid(s),
    ensures
        sorted_by_uuid(insert_by_uuid(o, s)),
    decreases s.len(),
{
    let r = insert_by_uuid(o, s);
    if s.len() == 0 {
    } else if !lex_lt(uuid_key(s[0]), uuid_key(o)) {
        assert forall|i: int, j: int| 0 <= i < j < r.len() implies !lex_lt(uuid_key(#[trigger] r[j]), uuid_key(#[trigger] r[i])) by {
            if i == 0 {
                if j - 1 > 0 {
                    assert(!lex_lt(uuid_key(s[j - 1]), uuid_key(s[0])));
                    lemma_lex_not_lt_transitive(uuid_key(s[j - 1]), uuid_key(s[0]), uuid_key(o));
                }
            } else {
                assert(r[i] == s[i - 1] && r[j] == s[j - 1]);
            }
        }
    } else {
        let t = s.drop_first();
        assert(sorted_by_uuid(t)) by {
            assert forall|i: int, j: int| 0 <= i < j < t.len() implies !lex_lt(uuid_key(#[trigger] t[j]), uuid_key(#[trigger] t[i])) by {
                assert(t[i] == s[i + 1] && t[j] == s[j + 1]);
            }
        }
        lemma_insert_by_uuid_sorted(o, t);
        let q = lemma_insert_by_uuid_position(o, t);
        let u = insert_by_uuid(o, t);
        lemma_lex_asymmetric(uuid_key(s[0]), uuid_key(o));
        assert forall|i: int, j: int| 0 <= i < j < r.len() implies !lex_lt(uuid_key(#[trigger] r[j]), uuid_key(#[trigger] r[i])) by {
            if i == 0 {
                assert(r[j] == u[j - 1]);
                if j - 1 < q {
                    assert(u[j - 1] == t[j - 1]);
                    assert(t[j - 1] == s[j]);
                } else if j - 1 > q {
                    assert(u[j - 1] == t[j - 2]);
                    assert(t[j - 2] == s[j - 1]);
                }
            } else {
                assert(r[i] == u[i - 1] && r[j] == u[j - 1]);
            }
        }
    }
}

proof fn lemma_sort_by_uuid_sorted_permutation(s: Seq<NotionObject>)
    ensures
        sorted_by_uuid(sort_by_uuid(s)),
        sort_by_uuid(s).to_multiset() == s.to_multiset(),
    decreases s.len(),
{
    if s.len() > 0 {
        let t = sort_by_uuid(s.drop_first());
        lemma_sort_by_uuid_sorted_permutation(s.drop_first());
        lemma_insert_by_uuid_sorted(s[0], t);
        let p = lemma_insert_by_uuid_position(s[0], t);
        vstd::seq_lib::to_multiset_insert(t, p, s[0]);
        assert(s.drop_first().insert(0, s[0]) =~= s);
        vstd::seq_lib::to_multiset_insert(s.drop_first(), 0, s[0]);
    }
}

proof fn lemma_sorted_unique(s1: Seq<NotionObject>, s2: Seq<NotionObject>)
    requires
        sorted_by_uuid(s1),
        sorted_by_uuid(s2),
        s1.to_multiset() == s2.to_multiset(),
        keys_distinct(s1),
    ensures
        s1 == s2,
    decreases s1.len(),
{
    vstd::seq_lib::to_multiset_len(s1);
    vstd::seq_lib::to_multiset_len(s2);
    assert(s1.len() == s2.len());
    if s1.len() == 0 {
        assert(s1 =~= s2);
    } else {
        let x = s1[0];
        let y = s2[0];
        assert(s1.contains(x));
        assert(s1.to_multiset().count(x) > 0);
        assert(s2.to_multiset().count(x) > 0);
        assert(s2.contains(x));
        assert(s2.contains(y));
        assert(s2.to_multiset().count(y) > 0);
        assert(s1.to_multiset().count(y) > 0);
        assert(s1.contains(y));
        let k = choose|k: int| 0 <= k < s2.len() && s2[k] == x;
        let m = choose|m: int| 0 <= m < s1.len() && s1[m] == y;
        if k > 0 && m > 0 {
            assert(!lex_lt(uuid_key(s2[k]), uuid_key(s2[0])));
            assert(!lex_lt(uuid_key(s1[m]), uuid_key(s1[0])));
            lemma_lex_total(uuid_key(x), uuid_key(y));
            assert(s1[0] == s1[m]);
        }
        assert(x == y);
        assert(s1.remove(0) =~= s1.drop_first());
        assert(s2.remove(0) =~= s2.drop_first());
        let t1 = s1.drop_first();
        let t2 = s2.drop_first();
        assert(sorted_by_uuid(t1)) by {
            assert forall|i: int, j: int| 0 <= i < j < t1.len() implies !lex_lt(uuid_key(#[trigger] t1[j]), uuid_key(#[trigger] t1[i])) by {
                assert(t1[i] == s1[i + 1] && t1[j] == s1[j + 1]);
            }
        }
        assert(sorted_by_uuid(t2)) by {
            assert forall|i: int, j: int| 0 <= i < j < t2.len() implies !lex_lt(uuid_key(#[trigger] t2[j]), uuid_key(#[trigger] t2[i])) by {
                assert(t2[i] == s2[i + 1] && t2[j] == s2[j + 1]);
            }
        }
        assert(keys_distinct(t1)) by {
            assert forall|i: int, j: int|
                0 <= i < t1.len() && 0 <= j < t1.len() && uuid_key(#[trigger] t1[i]) == uuid_key(#[trigger] t1[j]) implies t1[i] == t1[j] by {
                assert(t1[i] == s1[i + 1] && t1[j] == s1[j + 1]);
            }
        }
        lemma_sorted_unique(t1, t2);
        assert(s1 =~= s2) by {
            assert forall|i: int| 0 <= i < s1.len() implies s1[i] == s2[i] by {
                if i > 0 {
                    assert(s1[i] == t1[i - 1] && s2[i] == t2[i - 1]);
                }
            }
        }
    }
}

/// The pages and databases of `s`, in order.
pub open spec fn renamables(s: Seq<NotionObject>) -> Seq<NotionObject>
    decreases s.len(),
{
    if s.len() == 0 {
        Seq::empty()
    } else if s.last().renamable() {
        renamables(s.drop_last()).push(s.last())
    } else {
        renamables(s.drop_last())
    }
}

/// No two pages or databases of `s` share an identifier.
pub open spec fn identifiers_unique(s: Seq<NotionObject>) -> bool {
    forall|i: int, j: int|
        0 <= i < s.len() && 0 <= j < s.len() && i != j && s[i].renamable() && s[j].renamable() ==> uuid_key(
            #[trigger] s[i],
        ) != uuid_key(#[trigger] s[j])
}

proof fn lemma_claims_renamables(s: Seq<NotionObject>, name: Seq<char>)
    ensures
        claims_after(s, name) == claims_after(renamables(s), name),
    decreases s.len(),
{
    if s.len() > 0 {
        lemma_claims_renamables(s.drop_last(), name);
        if s.last().renamable() {
            let r = renamables(s.drop_last());
            assert(r.push(s.last()).drop_last() =~= r);
            assert(r.push(s.last()).last() == s.last());
        }
    }
}

proof fn lemma_renamables_concat(a: Seq<NotionObject>, b: Seq<NotionObject>)
    ensures
        renamables(a + b) == renamables(a) + renamables(b),
    decreases b.len(),
{
    if b.len() == 0 {
        assert(a + b =~= a);
        assert(renamables(a) + renamables(b) =~= renamables(a));
    } else {
        assert((a + b).drop_last() =~= a + b.drop_last());
        assert((a + b).last() == b.last());
        lemma_renamables_concat(a, b.drop_last());
        if b.last().renamable() {
            assert(renamables(a) + renamables(b.drop_last()).push(b.last()) =~= (renamables(a) + renamables(
                b.drop_last(),
            )).push(b.last()));
        }
    }
}

proof fn lemma_renamables_elements(s: Seq<NotionObject>)
    ensures
        forall|k: int| 0 <= k < renamables(s).len() ==> (#[trigger] renamables(s)[k]).renamable() && s.contains(renamables(s)[k]),
    decreases s.len(),
{
    if s.len() > 0 {
        lemma_renamables_elements(s.drop_last());
        let r = renamables(s.drop_last());
        assert forall|k: int| 0 <= k < renamables(s).len() implies (#[trigger] renamables(s)[k]).renamable() && s.contains(renamables(s)[k]) by {
            if k < r.len() {
                assert(renamables(s)[k] == r[k]);
                let q = choose|q: int| 0 <= q < s.drop_last().len() && s.drop_last()[q] == r[k];
                assert(s[q] == r[k]);
            } else {
                assert(renamables(s)[k] == s.last());
                assert(s[s.len() - 1] == s.last());
            }
        }
    }
}

proof fn lemma_renamables_count(s: Seq<NotionObject>, x: NotionObject)
    ensures
        renamables(s).to_multiset().count(x) == if x.renamable() {
            s.to_multiset().count(x)
        } else {
            0
        },
    decreases s.len(),
{
    broadcast use vstd::multiset::group_multiset_axioms;

    if s.len() == 0 {
        assert(renamables(s) =~= Seq::<NotionObject>::empty());
        assert(s.to_multiset() =~= Multiset::empty()) by {
            vstd::seq_lib::to_multiset_len(s);
        }
        vstd::seq_lib::to_multiset_len(renamables(s));
    } else {
        lemma_renamables_count(s.drop_last(), x);
        assert(s.drop_last().push(s.last()) =~= s);
        if s.last().renamable() {
            assert(renamables(s) == renamables(s.drop_last()).push(s.last()));
        }
    }
}

proof fn lemma_unique_count(s: Seq<NotionObject>, x: NotionObject)
    requires
        identifiers_unique(s),
        x.renamable(),
    ensures
        s.to_multiset().count(x) <= 1,
    decreases s.len(),
{
    broadcast use vstd::multiset::group_multiset_axioms;

    if s.len() > 0 {
        let t = s.drop_last();
        assert(identifiers_unique(t)) by {
            assert forall|i: int, j: int|
                0 <= i < t.len() && 0 <= j < t.len() && i != j && t[i].renamable() && t[j].renamable() implies uuid_key(
                #[trigger] t[i],
            ) != uuid_key(#[trigger] t[j]) by {
                assert(t[i] == s[i] && t[j] == s[j]);
            }
        }
        lemma_unique_count(t, x);
        assert(t.push(s.last()) =~= s);
        if s.last() == x && t.to_multiset().count(x) > 0 {
            assert(t.contains(x));
            let k = choose|k: int| 0 <= k < t.len() && t[k] == x;
            assert(s[k] == s[s.len() - 1]);
        }
    } else {
        vstd::seq_lib::to_multiset_len(s);
    }
}

proof fn lemma_renamables_sorted(s: Seq<NotionObject>)
    requires
        sorted_by_uuid(s),
    ensures
        sorted_by_uuid(renamables(s)),
    decreases s.len(),
{
    if s.len() > 0 {
        let t = s.drop_last();
        assert(sorted_by_uuid(t)) by {
            assert forall|i: int, j: int| 0 <= i < j < t.len() implies !lex_lt(uuid_key(#[trigger] t[j]), uuid_key(#[trigger] t[i])) by {
                assert(t[i] == s[i] && t[j] == s[j]);
            }
        }
        lemma_renamables_sorted(t);
        lemma_renamables_elements(t);
        let r = renamables(t);
        if s.last().renamable() {
            let u = r.push(s.last());
            assert forall|i: int, j: int| 0 <= i < j < u.len() implies !lex_lt(uuid_key(#[trigger] u[j]), uuid_key(#[trigger] u[i])) by {
                if j < r.len() {
                    assert(u[i] == r[i] && u[j] == r[j]);
                } else {
                    assert(u[i] == r[i]);
                    assert(t.contains(r[i]));
                    let q = choose|q: int| 0 <= q < t.len() && t[q] == r[i];
                    assert(s[q] == r[i]);
                    assert(u[j] == s[s.len() - 1]);
                }
            }
        }
    }
}

proof fn lemma_renamables_at(s: Seq<NotionObject>, i: int)
    requires
        0 <= i < s.len(),
        s[i].renamable(),
    ensures
        renamables(s).len() > renamables(s.subrange(0, i)).len(),
        renamables(s)[renamables(s.subrange(0, i)).len() as int] == s[i],
        renamables(s).subrange(0, renamables(s.subrange(0, i)).len() as int) == renamables(s.subrange(0, i)),
{
    let pre = s.subrange(0, i);
    let rest = s.subrange(i + 1, s.len() as int);
    assert(s =~= pre + (seq![s[i]] + rest));
    lemma_renamables_concat(pre, seq![s[i]] + rest);
    lemma_renamables_concat(seq![s[i]], rest);
    assert(seq![s[i]].drop_last() =~= Seq::<NotionObject>::empty());
    assert(seq![s[i]].last() == s[i]);
    assert(renamables(Seq::<NotionObject>::empty()) =~= Seq::<NotionObject>::empty());
    assert(renamables(seq![s[i]]) =~= seq![s[i]]);
    let k = renamables(pre).len() as int;
    assert(renamables(s) == renamables(pre) + (seq![s[i]] + renamables(rest)));
    assert(renamables(s).subrange(0, k) =~= renamables(pre));
}

/// Resolution does not depend on the order in which a group's entities
/// come: when no two pages or databases of the group share an identifier,
/// an entity gets the same name from any two orderings of the group.
pub proof fn law_resolution_order_independent(
    a: Seq<NotionObject>,
    b: Seq<NotionObject>,
    name: Seq<char>,
    i: int,
    j: int,
)
    requires
        a.to_multiset() == b.to_multiset(),
        identifiers_unique(a),
        0 <= i < a.len(),
        0 <= j < b.len(),
        sort_by_uuid(a)[i] == sort_by_uuid(b)[j],
        sort_by_uuid(a)[i].renamable(),
    ensures
        resolved_name(sort_by_uuid(a), name, i) == resolved_name(sort_by_uuid(b), name, j),
{
    broadcast use vstd::multiset::group_multiset_axioms;

    let sa = sort_by_uuid(a);
    let sb = sort_by_uuid(b);
    let x = sa[i];
    lemma_sort_by_uuid_sorted_permutation(a);
    lemma_sort_by_uuid_sorted_permutation(b);
    lemma_sort_by_uuid_len(a);
    lemma_sort_by_uuid_len(b);
    let ta = renamables(sa);
    let tb = renamables(sb);
    lemma_renamables_sorted(sa);
    lemma_renamables_sorted(sb);
    assert(ta.to_multiset() =~= tb.to_multiset()) by {
        assert forall|y: NotionObject| ta.to_multiset().count(y) == tb.to_multiset().count(y) by {
            lemma_renamables_count(sa, y);
            lemma_renamables_count(sb, y);
        }
    }
    lemma_renamables_elements(sa);
    assert(keys_distinct(ta)) by {
        assert forall|p: int, q: int|
            0 <= p < ta.len() && 0 <= q < ta.len() && uuid_key(#[trigger] ta[p]) == uuid_key(#[trigger] ta[q]) implies ta[p] == ta[q] by {
            if ta[p] != ta[q] {
                assert(sa.contains(ta[p]) && sa.contains(ta[q]));
                assert(sa.to_multiset().count(ta[p]) > 0 && sa.to_multiset().count(ta[q]) > 0);
                assert(a.contains(ta[p]) && a.contains(ta[q]));
                let p2 = choose|p2: int| 0 <= p2 < a.len() && a[p2] == ta[p];
                let q2 = choose|q2: int| 0 <= q2 < a.len() && a[q2] == ta[q];
                assert(p2 != q2);
            }
        }
    }
    lemma_sorted_unique(ta, tb);
    lemma_renamables_at(sa, i);
    lemma_renamables_at(sb, j);
    let ka = renamables(sa.subrange(0, i)).len() as int;
    let kb = renamables(sb.subrange(0, j)).len() as int;
    if ka != kb {
        lemma_unique_count(a, x);
        lemma_renamables_count(sa, x);
        vstd::seq_lib::to_multiset_remove(ta, ka);
        let rest = ta.remove(ka);
        if kb < ka {
            assert(rest[kb] == x);
        } else {
            assert(rest[kb - 1] == x);
        }
        assert(rest.contains(x));
        assert(rest.to_multiset().count(x) > 0);
    }
    lemma_claims_renamables(sa.subrange(0, i), name);
    lemma_claims_renamables(sb.subrange(0, j), name);
}

} // verus!
