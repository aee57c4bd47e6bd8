//! Planning the renames of files and directories, in an order that never
//! renames a directory before the directories inside it.

use vstd::prelude::*;
use vstd::utf8::encode_utf8;
use crate::bytes::push_all;
use crate::encoding::text_bytes;
use crate::objects::NotionObject;
use crate::paths::{count_byte, depth, renamed_dir, renamed_dir_path, renamed_file, renamed_file_path, separator_count, SEPARATOR};

verus! {

/// A rename of the entry at `from` to `to`.
pub struct RenameOp {
    pub from: Vec<u8>,
    pub to: Vec<u8>,
}

/// The renames as pairs of paths.
pub open spec fn ops_view(s: Seq<RenameOp>) -> Seq<(Seq<u8>, Seq<u8>)> {
    s.map_values(|o: RenameOp| (o.from@, o.to@))
}

/// `_all`, which follows the name of a database's file of unfiltered entries.
pub open spec fn all_suffix_bytes() -> Seq<u8> {
    seq![95u8, 97u8, 108u8, 108u8]
}

/// The renames of the files of one entity: its primary file, and for a
/// database its file of unfiltered entries (new name and `_all`) and its
/// rendered view. Nothing for an entity without a new name.
pub open spec fn file_renames_of(o: NotionObject) -> Seq<(Seq<u8>, Seq<u8>)> {
    if !o.renamable() || o.info().new_name.is_none() {
        Seq::empty()
    } else {
        let new = encode_utf8(o.info().new_name.unwrap()@);
        let p = encode_utf8(o.info().path@);
        seq![(p, renamed_file(p, new))] + if o is Database && (o->Database_1).csv_all_path.is_some() {
            let c = encode_utf8((o->Database_1).csv_all_path.unwrap()@);
            seq![(c, renamed_file(c, new + all_suffix_bytes()))]
        } else {
            Seq::empty()
        } + if o is Database && (o->Database_1).html_path.is_some() {
            let h = encode_utf8((o->Database_1).html_path.unwrap()@);
            seq![(h, renamed_file(h, new))]
        } else {
            Seq::empty()
        }
    }
}

/// The file renames of all entities of `objs`, entity after entity.
pub open spec fn file_renames(objs: Seq<NotionObject>) -> Seq<(Seq<u8>, Seq<u8>)>
    decreases objs.len(),
{
    if objs.len() == 0 {
        Seq::empty()
    } else {
        file_renames(objs.drop_last()) + file_renames_of(objs.last())
    }
}

/// The rename of the directory of one entity, if it has one and a new name.
pub open spec fn dir_rename_of(o: NotionObject) -> Seq<(Seq<u8>, Seq<u8>)> {
    if o.renamable() && o.info().new_name.is_some() && o.info().dir_path.is_some() {
        let d = encode_utf8(o.info().dir_path.unwrap()@);
        seq![(d, renamed_dir(d, encode_utf8(o.info().new_name.unwrap()@)))]
    } else {
        Seq::empty()
    }
}

/// The directory renames of all entities of `objs`, in their order.
pub open spec fn dir_renames(objs: Seq<NotionObject>) -> Seq<(Seq<u8>, Seq<u8>)>
    decreases objs.len(),
{
    if objs.len() == 0 {
        Seq::empty()
    } else {
        dir_renames(objs.drop_last()) + dir_rename_of(objs.last())
    }
}

/// Inserts `d` before the first rename of a directory not deeper than its own.
pub open spec fn insert_by_depth(d: (Seq<u8>, Seq<u8>), s: Seq<(Seq<u8>, Seq<u8>)>) -> Seq<(Seq<u8>, Seq<u8>)>
    decreases s.len(),
{
    if s.len() == 0 {
        seq![d]
    } else if depth(s[0].0) <= depth(d.0) {
        seq![d] + s
    } else {
        seq![s[0]] + insert_by_depth(d, s.drop_first())
    }
}

/// `s` ordered deepest first; renames at equal depth keep their order.
pub open spec fn sort_by_depth(s: Seq<(Seq<u8>, Seq<u8>)>) -> Seq<(Seq<u8>, Seq<u8>)>
    decreases s.len(),
{
    if s.len() == 0 {
        Seq::empty()
    } else {
        insert_by_depth(s[0], sort_by_depth(s.drop_first()))
    }
}

/// No rename of `s` is of a deeper directory than one before it.
pub open spec fn deepest_first(s: Seq<(Seq<u8>, Seq<u8>)>) -> bool {
    forall|a: int, b: int| 0 <= a < b < s.len() ==> depth(#[trigger] s[a].0) >= depth(#[trigger] s[b].0)
}

/// Adds the rename of the file at `path` to `stem` and `path`'s extension.
fn push_file_rename(ops: &mut Vec<RenameOp>, path: &String, stem: &Vec<u8>)
    ensures
        ops_view(final(ops)@) == ops_view(old(ops)@).push(
            (encode_utf8(path@), renamed_file(encode_utf8(path@), stem@)),
        ),
{
    let from = text_bytes(path.as_str());
    let to = renamed_file_path(from.as_slice(), stem.as_slice());
    let ghost before = ops@;
    ops.push(RenameOp { from, to });
    assert(ops_view(ops@) =~= ops_view(before).push((encode_utf8(path@), renamed_file(encode_utf8(path@), stem@))));
}

/// Plans the renames of the files of every entity that has a new name: its
/// primary file to the new name with its extension, and for a database its
/// file of unfiltered entries to the new name and `_all`, and its rendered
/// view to the new name. Directories are left to `rename_directories`.
pub fn rename_objects_files(all_objects: &Vec<NotionObject>) -> (r: Vec<RenameOp>)
    ensures
        ops_view(r@) == file_renames(all_objects@),
{
    let ghost objs = all_objects@;
    let mut ops: Vec<RenameOp> = Vec::new();
    let mut i: usize = 0;
    assert(objs.subrange(0, 0) =~= Seq::<NotionObject>::empty());
    assert(ops_view(ops@) =~= Seq::<(Seq<u8>, Seq<u8>)>::empty());
    while i < all_objects.len()
        invariant
            i <= objs.len(),
            objs == all_objects@,
            ops_view(ops@) == file_renames(objs.subrange(0, i as int)),
        decreases objs.len() - i,
    {
        let o = &all_objects[i];
        let ghost pre = objs.subrange(0, i + 1);
        assert(pre.drop_last() =~= objs.subrange(0, i as int));
        assert(pre.last() == *o);
        let ghost base = ops_view(ops@);
        match o {
            NotionObject::Page(info) => {
                if let Some(new_name) = &info.new_name {
                    let stem = text_bytes(new_name.as_str());
                    push_file_rename(&mut ops, &info.path, &stem);
                }
                assert(ops_view(ops@) =~= base + file_renames_of(*o));
            },
            NotionObject::Database(info, db) => {
                if let Some(new_name) = &info.new_name {
                    let stem = text_bytes(new_name.as_str());
                    push_file_rename(&mut ops, &info.path, &stem);
                    let ghost after_primary = ops_view(ops@);
                    if let Some(csv_all) = &db.csv_all_path {
                        let mut all_stem: Vec<u8> = Vec::new();
                        push_all(&mut all_stem, stem.as_slice());
                        let suffix: Vec<u8> = vec![95u8, 97u8, 108u8, 108u8];
                        push_all(&mut all_stem, suffix.as_slice());
                        assert(all_stem@ =~= stem@ + all_suffix_bytes());
                        push_file_rename(&mut ops, csv_all, &all_stem);
                    }
                    let ghost after_all = ops_view(ops@);
                    if let Some(html) = &db.html_path {
                        push_file_rename(&mut ops, html, &stem);
                    }
                    assert(ops_view(ops@) =~= base + file_renames_of(*o));
                } else {
                    assert(ops_view(ops@) =~= base + file_renames_of(*o));
                }
            },
            _ => {
                assert(ops_view(ops@) =~= base + file_renames_of(*o));
            },
        }
        i = i + 1;
    }
    assert(objs.subrange(0, i as int) =~= objs);
    ops
}

proof fn lemma_insert_by_depth_at(d: (Seq<u8>, Seq<u8>), s: Seq<(Seq<u8>, Seq<u8>)>, p: int)
    requires
        0 <= p <= s.len(),
        forall|k: int| 0 <= k < p ==> depth((#[trigger] s[k]).0) > depth(d.0),
        p < s.len() ==> depth(s[p].0) <= depth(d.0),
    ensures
        insert_by_depth(d, s) == s.insert(p, d),
    decreases s.len(),
{
    if s.len() == 0 {
        assert(s.insert(p, d) =~= seq![d]);
    } else if depth(s[0].0) <= depth(d.0) {
        assert(p == 0);
        assert(s.insert(p, d) =~= seq![d] + s);
    } else {
        let t = s.drop_first();
        assert forall|k: int| 0 <= k < p - 1 implies depth((#[trigger] t[k]).0) > depth(d.0) by {
            assert(t[k] == s[k + 1]);
        }
        lemma_insert_by_depth_at(d, t, p - 1);
        assert(s.insert(p, d) =~= seq![s[0]] + t.insert(p - 1, d));
    }
}

/// The directory renames of `all_objects`, in their order.
fn collect_dir_renames(all_objects: &Vec<NotionObject>) -> (r: Vec<RenameOp>)
    ensures
        ops_view(r@) == dir_renames(all_objects@),
{
    let ghost objs = all_objects@;
    let mut ops: Vec<RenameOp> = Vec::new();
    let mut i: usize = 0;
    assert(objs.subrange(0, 0) =~= Seq::<NotionObject>::empty());
    assert(ops_view(ops@) =~= Seq::<(Seq<u8>, Seq<u8>)>::empty());
    while i < all_objects.len()
        invariant
            i <= objs.len(),
            objs == all_objects@,
            ops_view(ops@) == dir_renames(objs.subrange(0, i as int)),
        decreases objs.len() - i,
    {
        let o = &all_objects[i];
        let ghost pre = objs.subrange(0, i + 1);
        assert(pre.drop_last() =~= objs.subrange(0, i as int));
        assert(pre.last() == *o);
        let ghost base = ops_view(ops@);
        match o {
            NotionObject::Page(info) | NotionObject::Database(info, _) => {
                match (&info.new_name, &info.dir_path) {
                    (Some(new_name), Some(dir)) => {
                        let from = text_bytes(dir.as_str());
                        let name = text_bytes(new_name.as_str());
                        let to = renamed_dir_path(from.as_slice(), name.as_slice());
                        ops.push(RenameOp { from, to });
                    },
                    _ => {},
                }
            },
            _ => {},
        }
        assert(ops_view(ops@) =~= base + dir_rename_of(*o));
        i = i + 1;
    }
    assert(objs.subrange(0, i as int) =~= objs);
    ops
}

/// Plans the renames of the directories of the entities that have one and a
/// new name, deepest first, so that no directory is renamed while a
/// directory inside it still waits under the old path.
pub fn rename_directories(all_objects: &Vec<NotionObject>) -> (r: Vec<RenameOp>)
    ensures
        ops_view(r@) == sort_by_depth(dir_renames(all_objects@)),
        deepest_first(ops_view(r@)),
{
    let mut rest = collect_dir_renames(all_objects);
    let ghost all = ops_view(rest@);
    let ghost n0 = rest@.len();
    let mut sorted: Vec<RenameOp> = Vec::new();
    let mut sorted_depths: Vec<usize> = Vec::new();
    assert(all.subrange(n0 as int, n0 as int) =~= Seq::<(Seq<u8>, Seq<u8>)>::empty());
    assert(ops_view(sorted@) =~= Seq::<(Seq<u8>, Seq<u8>)>::empty());
    while rest.len() > 0
        invariant
            rest@.len() <= n0,
            all.len() == n0,
            ops_view(rest@) == all.subrange(0, rest@.len() as int),
            ops_view(sorted@) == sort_by_depth(all.subrange(rest@.len() as int, n0 as int)),
            deepest_first(ops_view(sorted@)),
            sorted_depths@.len() == sorted@.len(),
            forall|k: int| 0 <= k < sorted@.len() ==> (#[trigger] sorted_depths@[k]) + 1 == depth(sorted@[k].from@),
        decreases rest@.len(),
    {
        let ghost n = rest@.len();
        let ghost before = rest@;
        let op = rest.pop().unwrap();
        assert(ops_view(rest@) =~= all.subrange(0, rest@.len() as int)) by {
            assert(rest@ =~= before.subrange(0, n - 1));
        }
        assert(ops_view(before)[n - 1] == (op.from@, op.to@));
        assert(all.subrange(0, n as int)[n - 1] == all[n - 1]);
        assert((op.from@, op.to@) == all[n - 1]);
        let d = separator_count(op.from.as_slice());
        let ghost sv = ops_view(sorted@);
        let mut p: usize = 0;
        while p < sorted.len() && sorted_depths[p] > d
            invariant
                p <= sorted@.len(),
                sv == ops_view(sorted@),
                d + 1 == depth(op.from@),
                sorted_depths@.len() == sorted@.len(),
                forall|k: int| 0 <= k < sorted@.len() ==> (#[trigger] sorted_depths@[k]) + 1 == depth(sorted@[k].from@),
                forall|k: int| 0 <= k < p ==> depth((#[trigger] sv[k]).0) > depth(op.from@),
            decreases sorted@.len() - p,
        {
            assert(sv[p as int].0 == sorted@[p as int].from@);
            p = p + 1;
        }
        proof {
            if p < sorted@.len() {
                assert(sv[p as int].0 == sorted@[p as int].from@);
            }
            lemma_insert_by_depth_at((op.from@, op.to@), sv, p as int);
            let tail = all.subrange(n - 1, n0 as int);
            assert(tail.drop_first() =~= all.subrange(n as int, n0 as int));
            assert(tail[0] == (op.from@, op.to@));
        }
        let ghost old_sorted = sorted@;
        let ghost old_depths = sorted_depths@;
        let ghost opv = (op.from@, op.to@);
        sorted.insert(p, op);
        sorted_depths.insert(p, d);
        assert(ops_view(sorted@) =~= sv.insert(p as int, opv)) by {
            assert(sorted@ =~= old_sorted.insert(p as int, sorted@[p as int]));
        }
        assert(deepest_first(ops_view(sorted@))) by {
            let nv = ops_view(sorted@);
            assert forall|a: int, b: int| 0 <= a < b < nv.len() implies depth(#[trigger] nv[a].0) >= depth(#[trigger] nv[b].0) by {
                if a < p && b == p {
                } else if a < p && b > p {
                    assert(nv[b] == sv[b - 1]);
                } else if a == p && b > p {
                    assert(nv[b] == sv[b - 1]);
                    if b - 1 > p {
                        assert(depth(sv[p as int].0) >= depth(sv[b - 1].0));
                    }
                } else if a > p {
                    assert(nv[a] == sv[a - 1]);
                    assert(nv[b] == sv[b - 1]);
                }
            }
        }
        assert forall|k: int| 0 <= k < sorted@.len() implies (#[trigger] sorted_depths@[k]) + 1 == depth(sorted@[k].from@) by {
            if k < p {
                assert(sorted_depths@[k] == old_depths[k]);
                assert(sorted@[k] == old_sorted[k]);
            } else if k > p {
                assert(sorted_depths@[k] == old_depths[k - 1]);
                assert(sorted@[k] == old_sorted[k - 1]);
            }
        }
    }
    assert(all.subrange(0, n0 as int) =~= all);
    sorted
}

impl NotionObject {
    /// Plans the renames of the files of every entity (see the free
    /// function `rename_objects_files`).
    pub fn rename_objects_files(all_objects: &Vec<NotionObject>) -> (r: Vec<RenameOp>)
        ensures
            ops_view(r@) == file_renames(all_objects@),
    {
        rename_objects_files(all_objects)
    }

    /// Plans the renames of the directories, deepest first (see the free
    /// function `rename_directories`).
    pub fn rename_directories(all_objects: &Vec<NotionObject>) -> (r: Vec<RenameOp>)
        ensures
            ops_view(r@) == sort_by_depth(dir_renames(all_objects@)),
            deepest_first(ops_view(r@)),
    {
        rename_directories(all_objects)
    }
}

/// A directory inside another has more components.
proof fn lemma_inner_deeper(outer: Seq<u8>, rest: Seq<u8>)
    ensures
        depth(outer + seq![SEPARATOR] + rest) > depth(outer),
    decreases rest.len(),
{
    if rest.len() == 0 {
        assert((outer + seq![SEPARATOR] + rest).drop_last() =~= outer);
    } else {
        lemma_inner_deeper(outer, rest.drop_last());
        assert((outer + seq![SEPARATOR] + rest).drop_last() =~= outer + seq![SEPARATOR] + rest.drop_last());
    }
}

/// In a plan ordered deepest first, the rename of a directory inside
/// another comes before the rename of the outer one.
pub proof fn law_inner_directory_renamed_first(ops: Seq<(Seq<u8>, Seq<u8>)>, outer: int, inner: int, rest: Seq<u8>)
    requires
        deepest_first(ops),
        0 <= outer < ops.len(),
        0 <= inner < ops.len(),
        ops[inner].0 == ops[outer].0 + seq![SEPARATOR] + rest,
    ensures
        inner < outer,
{
    lemma_inner_deeper(ops[outer].0, rest);
    if outer < inner {
        assert(depth(ops[outer].0) >= depth(ops[inner].0));
    }
}

} // verus!
