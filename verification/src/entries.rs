//! The entries of a folder as they are listed: files and folders each in the order of their
//! names, entries with the same name keeping the order in which they were read.
use vstd::prelude::*;
use crate::file::File;
use crate::folder::Folder;

verus! {

/// Whether a text comes before another, comparing characters in turn (a text comes before
/// the longer texts it starts).
pub open spec fn text_lt(a: Seq<char>, b: Seq<char>) -> bool
    decreases a.len(),
{
    if a.len() == 0 {
        b.len() > 0
    } else if b.len() == 0 {
        false
    } else if a[0] != b[0] {
        (a[0] as u32) < (b[0] as u32)
    } else {
        text_lt(a.drop_first(), b.drop_first())
    }
}

/// Whether a text comes before another.
pub fn text_before(a: &str, b: &str) -> (r: bool)
    ensures
        r == text_lt(a@, b@),
{
    let n = a.unicode_len();
    let m = b.unicode_len();
    let mut i: usize = 0;
    proof {
        assert(a@.skip(0) =~= a@);
        assert(b@.skip(0) =~= b@);
    }
    while i < n && i < m
        invariant
            n == a@.len(),
            m == b@.len(),
            i <= n,
            i <= m,
            text_lt(a@.skip(i as int), b@.skip(i as int)) == text_lt(a@, b@),
        decreases n - i,
    {
        let x = a.get_char(i);
        let y = b.get_char(i);
        proof {
            assert(a@.skip(i as int)[0] == x);
            assert(b@.skip(i as int)[0] == y);
            assert(a@.skip(i as int).drop_first() =~= a@.skip(i + 1));
            assert(b@.skip(i as int).drop_first() =~= b@.skip(i + 1));
        }
        if x != y {
            return (x as u32) < (y as u32);
        }
        i += 1;
    }
    proof {
        assert(a@.skip(i as int).len() == n - i);
        assert(b@.skip(i as int).len() == m - i);
    }
    i == n && i < m
}

/// Where an entry named `name` goes among entries sorted by name, from position `i` on:
/// before the first one whose name comes after it.
pub open spec fn insert_pos(names: Seq<Seq<char>>, name: Seq<char>, i: int) -> int
    decreases names.len() - i,
{
    if i >= names.len() || i < 0 {
        names.len() as int
    } else if text_lt(name, names[i]) {
        i
    } else {
        insert_pos(names, name, i + 1)
    }
}

/// Files sorted by name, entries with the same name in their order.
pub open spec fn files_by_name(s: Seq<File>) -> Seq<File>
    decreases s.len(),
{
    if s.len() == 0 {
        s
    } else {
        let sorted = files_by_name(s.drop_last());
        sorted.insert(insert_pos(sorted.map_values(|f: File| f.name@), s.last().name@, 0), s.last())
    }
}

/// Folders sorted by name, entries with the same name in their order.
pub open spec fn folders_by_name(s: Seq<Folder>) -> Seq<Folder>
    decreases s.len(),
{
    if s.len() == 0 {
        s
    } else {
        let sorted = folders_by_name(s.drop_last());
        sorted.insert(insert_pos(sorted.map_values(|f: Folder| f.name@), s.last().name@, 0), s.last())
    }
}

/// Sort files by name, keeping the order of files with the same name.
pub fn sort_files(entries: Vec<File>) -> (r: Vec<File>)
    ensures
        r@ == files_by_name(entries@),
{
    let ghost all = entries@;
    let mut rest = entries;
    let mut r: Vec<File> = Vec::new();
    let ghost mut i: int = 0;
    proof {
        assert(all.take(0) =~= Seq::<File>::empty());
        assert(all.skip(0) =~= all);
    }
    while rest.len() > 0
        invariant
            0 <= i <= all.len(),
            rest@ == all.skip(i),
            r@ == files_by_name(all.take(i)),
        decreases rest@.len(),
    {
        let e = rest.remove(0);
        proof {
            assert(e == all[i]);
            assert(all.skip(i).drop_first() =~= all.skip(i + 1));
        }
        let mut j: usize = 0;
        while j < r.len() && !text_before(e.name.as_str(), r[j].name.as_str())
            invariant
                j <= r@.len(),
                insert_pos(r@.map_values(|g: File| g.name@), e.name@, j as int) == insert_pos(r@.map_values(|g: File| g.name@), e.name@, 0),
            decreases r@.len() - j,
        {
            j += 1;
        }
        proof {
            assert(all.take(i + 1).drop_last() =~= all.take(i));
            assert(all.take(i + 1).last() == e);
        }
        r.insert(j, e);
        proof {
            i = i + 1;
        }
    }
    proof {
        assert(all.take(i) =~= all);
    }
    r
}

/// Sort folders by name, keeping the order of folders with the same name.
pub fn sort_folders(entries: Vec<Folder>) -> (r: Vec<Folder>)
    ensures
        r@ == folders_by_name(entries@),
{
    let ghost all = entries@;
    let mut rest = entries;
    let mut r: Vec<Folder> = Vec::new();
    let ghost mut i: int = 0;
    proof {
        assert(all.take(0) =~= Seq::<Folder>::empty());
        assert(all.skip(0) =~= all);
    }
    while rest.len() > 0
        invariant
            0 <= i <= all.len(),
            rest@ == all.skip(i),
            r@ == folders_by_name(all.take(i)),
        decreases rest@.len(),
    {
        let e = rest.remove(0);
        proof {
            assert(e == all[i]);
            assert(all.skip(i).drop_first() =~= all.skip(i + 1));
        }
        let mut j: usize = 0;
        while j < r.len() && !text_before(e.name.as_str(), r[j].name.as_str())
            invariant
                j <= r@.len(),
                insert_pos(r@.map_values(|g: Folder| g.name@), e.name@, j as int) == insert_pos(r@.map_values(|g: Folder| g.name@), e.name@, 0),
            decreases r@.len() - j,
        {
            j += 1;
        }
        proof {
            assert(all.take(i + 1).drop_last() =~= all.take(i));
            assert(all.take(i + 1).last() == e);
        }
        r.insert(j, e);
        proof {
            i = i + 1;
        }
    }
    proof {
        assert(all.take(i) =~= all);
    }
    r
}


/// No text comes before itself.
pub proof fn lemma_text_irreflexive(a: Seq<char>)
    ensures
        !text_lt(a, a),
    decreases a.len(),
{
    if a.len() > 0 {
        lemma_text_irreflexive(a.drop_first());
    }
}

/// A text before one before a third comes before the third.
pub proof fn lemma_text_transitive(a: Seq<char>, b: Seq<char>, c: Seq<char>)
    requires
        text_lt(a, b),
        text_lt(b, c),
    ensures
        text_lt(a, c),
    decreases a.len(),
{
    if a.len() > 0 && b.len() > 0 && c.len() > 0 && a[0] == b[0] && b[0] == c[0] {
        lemma_text_transitive(a.drop_first(), b.drop_first(), c.drop_first());
    }
}

proof fn lemma_char_cast(c: char, d: char)
    requires
        c != d,
    ensures
        (c as u32) != (d as u32),
{
    assert(c as int == (c as u32) as int);
    assert(d as int == (d as u32) as int);
}

/// Of two different texts, one comes before the other.
pub proof fn lemma_text_total(a: Seq<char>, b: Seq<char>)
    requires
        a != b,
    ensures
        text_lt(a, b) || text_lt(b, a),
    decreases a.len(),
{
    if a.len() > 0 && b.len() > 0 && a[0] == b[0] {
        assert(a.drop_first() != b.drop_first()) by {
            if a.drop_first() == b.drop_first() {
                assert(a =~= seq![a[0]] + a.drop_first());
                assert(b =~= seq![b[0]] + b.drop_first());
            }
        }
        lemma_text_total(a.drop_first(), b.drop_first());
    } else if a.len() > 0 && b.len() > 0 {
        lemma_char_cast(a[0], b[0]);
    } else if a.len() == 0 && b.len() == 0 {
        assert(a =~= b);
    }
}

/// Names in order: no name comes before one earlier in the list.
pub open spec fn names_sorted(names: Seq<Seq<char>>) -> bool {
    forall|i: int, j: int| 0 <= i < j < names.len() ==> !text_lt(#[trigger] names[j], #[trigger] names[i])
}

proof fn lemma_insert_pos(names: Seq<Seq<char>>, x: Seq<char>, i: int)
    requires
        0 <= i <= names.len(),
    ensures
        i <= insert_pos(names, x, i) <= names.len(),
        forall|j: int| i <= j < insert_pos(names, x, i) ==> !text_lt(x, #[trigger] names[j]),
        insert_pos(names, x, i) < names.len() ==> text_lt(x, names[insert_pos(names, x, i)]),
    decreases names.len() - i,
{
    if i < names.len() && !text_lt(x, names[i]) {
        lemma_insert_pos(names, x, i + 1);
    }
}

proof fn lemma_insert_sorted(names: Seq<Seq<char>>, x: Seq<char>)
    requires
        names_sorted(names),
    ensures
        names_sorted(names.insert(insert_pos(names, x, 0), x)),
{
    let p = insert_pos(names, x, 0);
    lemma_insert_pos(names, x, 0);
    let r = names.insert(p, x);
    assert forall|i: int, j: int| 0 <= i < j < r.len() implies !text_lt(#[trigger] r[j], #[trigger] r[i]) by {
        if j < p {
            assert(r[i] == names[i] && r[j] == names[j]);
        } else if j == p {
            assert(r[i] == names[i]);
        } else if i == p {
            assert(r[j] == names[j - 1]);
            if text_lt(names[j - 1], x) {
                if j - 1 > p {
                    assert(!text_lt(names[j - 1], names[p]));
                    if names[j - 1] != names[p] {
                        lemma_text_total(names[j - 1], names[p]);
                    }
                }
                lemma_text_transitive(names[j - 1], x, names[p]);
                lemma_text_irreflexive(names[p]);
            }
        } else if i < p {
            assert(r[i] == names[i] && r[j] == names[j - 1]);
        } else {
            assert(r[i] == names[i - 1] && r[j] == names[j - 1]);
        }
    }
}

/// Sorting files by name puts them in the order of their names.
pub proof fn lemma_files_sorted(s: Seq<File>)
    ensures
        names_sorted(files_by_name(s).map_values(|f: File| f.name@)),
        files_by_name(s).len() == s.len(),
        files_by_name(s).to_multiset() == s.to_multiset(),
    decreases s.len(),
{
    if s.len() > 0 {
        lemma_files_sorted(s.drop_last());
        let sorted = files_by_name(s.drop_last());
        let names = sorted.map_values(|f: File| f.name@);
        let p = insert_pos(names, s.last().name@, 0);
        lemma_insert_pos(names, s.last().name@, 0);
        lemma_insert_sorted(names, s.last().name@);
        assert(sorted.insert(p, s.last()).map_values(|f: File| f.name@) =~= names.insert(p, s.last().name@));
        vstd::seq_lib::to_multiset_insert(sorted, p, s.last());
        assert(s =~= s.drop_last().push(s.last()));
        vstd::seq_lib::to_multiset_build(s.drop_last(), s.last());
    } else {
        assert(files_by_name(s).map_values(|f: File| f.name@) =~= Seq::<Seq<char>>::empty());
    }
}

/// Sorting folders by name puts them in the order of their names.
pub proof fn lemma_folders_sorted(s: Seq<Folder>)
    ensures
        names_sorted(folders_by_name(s).map_values(|f: Folder| f.name@)),
        folders_by_name(s).len() == s.len(),
        folders_by_name(s).to_multiset() == s.to_multiset(),
    decreases s.len(),
{
    if s.len() > 0 {
        lemma_folders_sorted(s.drop_last());
        let sorted = folders_by_name(s.drop_last());
        let names = sorted.map_values(|f: Folder| f.name@);
        let p = insert_pos(names, s.last().name@, 0);
        lemma_insert_pos(names, s.last().name@, 0);
        lemma_insert_sorted(names, s.last().name@);
        assert(sorted.insert(p, s.last()).map_values(|f: Folder| f.name@) =~= names.insert(p, s.last().name@));
        vstd::seq_lib::to_multiset_insert(sorted, p, s.last());
        assert(s =~= s.drop_last().push(s.last()));
        vstd::seq_lib::to_multiset_build(s.drop_last(), s.last());
    } else {
        assert(folders_by_name(s).map_values(|f: Folder| f.name@) =~= Seq::<Seq<char>>::empty());
    }
}

/// Among entries sorted by name, none after the place where a name goes bears that name.
proof fn lemma_none_after(names: Seq<Seq<char>>, x: Seq<char>, j: int)
    requires
        names_sorted(names),
        insert_pos(names, x, 0) <= j < names.len(),
    ensures
        names[j] != x,
{
    lemma_insert_pos(names, x, 0);
    let p = insert_pos(names, x, 0);
    if names[j] == x {
        if j > p {
            assert(!text_lt(names[j], names[p]));
        }
        lemma_text_irreflexive(x);
    }
}

/// Sorting files keeps the order of files with the same name: for any name, the files that
/// bear it come out in the order in which they came in.
pub proof fn lemma_files_stable(s: Seq<File>, name: Seq<char>)
    ensures
        files_by_name(s).filter(|f: File| f.name@ == name) == s.filter(|f: File| f.name@ == name),
    decreases s.len(),
{
    let pred = |f: File| f.name@ == name;
    if s.len() > 0 {
        lemma_files_stable(s.drop_last(), name);
        lemma_files_sorted(s.drop_last());
        let sorted = files_by_name(s.drop_last());
        let names = sorted.map_values(|f: File| f.name@);
        let e = s.last();
        let p = insert_pos(names, e.name@, 0);
        lemma_insert_pos(names, e.name@, 0);
        let (front, back) = (sorted.take(p), sorted.skip(p));
        assert(sorted.insert(p, e) =~= front + seq![e] + back);
        assert(sorted =~= front + back);
        Seq::filter_distributes_over_add(front + seq![e], back, pred);
        Seq::filter_distributes_over_add(front, seq![e], pred);
        Seq::filter_distributes_over_add(front, back, pred);
        assert(seq![e] =~= Seq::<File>::empty().push(e));
        Seq::<File>::empty().lemma_filter_push(e, pred);
        assert(Seq::<File>::empty().filter(pred) =~= Seq::<File>::empty()) by {
            reveal(Seq::filter);
        }
        assert(s =~= s.drop_last().push(e));
        s.drop_last().lemma_filter_push(e, pred);
        if e.name@ == name {
            assert forall|j: int| 0 <= j < back.len() implies !pred(#[trigger] back[j]) by {
                lemma_none_after(names, e.name@, p + j);
                assert(back[j] == sorted[p + j]);
            }
            back.lemma_all_neg_filter_empty(pred);
            assert(back.filter(pred) =~= Seq::<File>::empty());
        }
    } else {
        assert(files_by_name(s) == s);
    }
}

/// Sorting folders keeps the order of folders with the same name: for any name, the folders
/// that bear it come out in the order in which they came in.
pub proof fn lemma_folders_stable(s: Seq<Folder>, name: Seq<char>)
    ensures
        folders_by_name(s).filter(|f: Folder| f.name@ == name) == s.filter(|f: Folder| f.name@ == name),
    decreases s.len(),
{
    let pred = |f: Folder| f.name@ == name;
    if s.len() > 0 {
        lemma_folders_stable(s.drop_last(), name);
        lemma_folders_sorted(s.drop_last());
        let sorted = folders_by_name(s.drop_last());
        let names = sorted.map_values(|f: Folder| f.name@);
        let e = s.last();
        let p = insert_pos(names, e.name@, 0);
        lemma_insert_pos(names, e.name@, 0);
        let (front, back) = (sorted.take(p), sorted.skip(p));
        assert(sorted.insert(p, e) =~= front + seq![e] + back);
        assert(sorted =~= front + back);
        Seq::filter_distributes_over_add(front + seq![e], back, pred);
        Seq::filter_distributes_over_add(front, seq![e], pred);
        Seq::filter_distributes_over_add(front, back, pred);
        assert(seq![e] =~= Seq::<Folder>::empty().push(e));
        Seq::<Folder>::empty().lemma_filter_push(e, pred);
        assert(Seq::<Folder>::empty().filter(pred) =~= Seq::<Folder>::empty()) by {
            reveal(Seq::filter);
        }
        assert(s =~= s.drop_last().push(e));
        s.drop_last().lemma_filter_push(e, pred);
        if e.name@ == name {
            assert forall|j: int| 0 <= j < back.len() implies !pred(#[trigger] back[j]) by {
                lemma_none_after(names, e.name@, p + j);
                assert(back[j] == sorted[p + j]);
            }
            back.lemma_all_neg_filter_empty(pred);
            assert(back.filter(pred) =~= Seq::<Folder>::empty());
        }
    } else {
        assert(folders_by_name(s) == s);
    }
}

} // verus!
