//! The preferences' recent-files list (File ▸ Open Recent): newest first,
//! each path once, at most [`RECENT_MAX`] entries.
use vstd::prelude::*;
use vstd::string::StringExecFns;

verus! {

/// Most paths the recent list keeps.
pub const RECENT_MAX: usize = 10;

/// The characters of each string of a list.
pub open spec fn texts(list: Seq<String>) -> Seq<Seq<char>> {
    list.map_values(|s: String| s@)
}

/// The entries of `list` that `same` does not mark (`same[i]` for
/// `list[i]`), in their order.
pub open spec fn kept(list: Seq<Seq<char>>, same: Seq<bool>) -> Seq<Seq<char>>
    decreases list.len(),
{
    if list.len() == 0 {
        Seq::empty()
    } else if same[list.len() - 1] {
        kept(list.drop_last(), same)
    } else {
        kept(list.drop_last(), same).push(list.last())
    }
}

/// The first [`RECENT_MAX`] entries of a list.
pub open spec fn capped(list: Seq<Seq<char>>) -> Seq<Seq<char>> {
    if list.len() > RECENT_MAX {
        list.take(RECENT_MAX as int)
    } else {
        list
    }
}

/// The recent list after opening `path`, where `same` marks the entries of
/// `list` that name the same file as `path`: `path` first, then the
/// unmarked entries in their order, cut to [`RECENT_MAX`] entries.
pub open spec fn spec_add_recent(list: Seq<Seq<char>>, path: Seq<char>, same: Seq<bool>) -> Seq<
    Seq<char>,
> {
    capped(seq![path] + kept(list, same))
}

/// Whether `same` marks every entry of `list` that is spelled as `path`.
pub open spec fn marks_spelling(list: Seq<Seq<char>>, path: Seq<char>, same: Seq<bool>) -> bool {
    &&& same.len() == list.len()
    &&& forall|i: int| 0 <= i < list.len() && list[i] == path ==> same[i]
}

/// `std::path::Path` equality of two paths, which compares them component
/// by component, so that `a/b`, `a//b` and `a/b/` are one path. `Path` is
/// `Eq`, so a path spelled the same is the same path; nothing more is
/// stated here, as how a path splits into components depends on the
/// platform's separators.
#[verifier::external_body]
fn same_path(a: &str, b: &str) -> (same: bool)
    ensures
        a@ == b@ ==> same,
{
    std::path::Path::new(a) == std::path::Path::new(b)
}

/// Put `path` first in the recent list `list` (newest first), dropping the
/// entries that `same` marks as naming the same file.
pub fn add_recent_marked(list: &Vec<String>, path: &str, same: &Vec<bool>) -> (recent: Vec<String>)
    requires
        same@.len() == list@.len(),
    ensures
        texts(recent@) == spec_add_recent(texts(list@), path@, same@),
{
    let mut recent: Vec<String> = Vec::new();
    recent.push(String::from_str(path));
    let mut i: usize = 0;
    proof {
        assert(texts(list@).take(0) =~= Seq::<Seq<char>>::empty());
        assert(texts(recent@) =~= seq![path@] + kept(texts(list@).take(0), same@));
    }
    while i < list.len() && recent.len() < RECENT_MAX
        invariant
            i <= list@.len(),
            same@.len() == list@.len(),
            1 <= recent@.len() <= RECENT_MAX,
            recent@.len() < RECENT_MAX ==> texts(recent@) == seq![path@] + kept(
                texts(list@).take(i as int),
                same@,
            ),
            recent@.len() == RECENT_MAX ==> texts(recent@) == (seq![path@] + kept(
                texts(list@).take(i as int),
                same@,
            )).take(RECENT_MAX as int),
            recent@.len() == RECENT_MAX ==> 1 + kept(texts(list@).take(i as int), same@).len()
                >= RECENT_MAX,
        decreases list@.len() - i,
    {
        let ghost before = texts(recent@);
        let ghost prefix = texts(list@).take(i as int);
        proof {
            assert(texts(list@).take(i + 1).drop_last() =~= prefix);
            assert(texts(list@).take(i + 1).last() == list@[i as int]@);
        }
        if !same[i] {
            recent.push(list[i].clone());
            proof {
                assert(texts(recent@) =~= before.push(list@[i as int]@));
                assert(texts(recent@) =~= seq![path@] + kept(texts(list@).take(i + 1), same@));
                if recent@.len() == RECENT_MAX {
                    assert(texts(recent@) =~= (seq![path@] + kept(texts(list@).take(i + 1), same@)).take(
                        RECENT_MAX as int,
                    ));
                }
            }
        } else {
            proof {
                assert(kept(texts(list@).take(i + 1), same@) == kept(prefix, same@));
            }
        }
        i = i + 1;
    }
    proof {
        let whole = seq![path@] + kept(texts(list@), same@);
        let a = seq![path@] + kept(texts(list@).take(i as int), same@);
        if i == list@.len() {
            assert(texts(list@).take(i as int) =~= texts(list@));
        } else {
            lemma_kept_prefix(texts(list@), same@, i as int, list@.len() as int);
            assert(texts(list@).take(list@.len() as int) =~= texts(list@));
        }
        assert(a.is_prefix_of(whole));
        if recent@.len() == RECENT_MAX {
            assert(a.take(RECENT_MAX as int) =~= whole.take(RECENT_MAX as int));
            if whole.len() == RECENT_MAX {
                assert(whole.take(RECENT_MAX as int) =~= whole);
            }
        }
    }
    recent
}

/// Put `path` first in the recent list `list` (newest first): the entries
/// that `std::path::Path` equality finds to be the same file leave the
/// list, among them every entry spelled as `path`.
pub fn add_recent(list: &Vec<String>, path: &str) -> (recent: Vec<String>)
    ensures
        exists|same: Seq<bool>|
            #![trigger spec_add_recent(texts(list@), path@, same)]
            marks_spelling(texts(list@), path@, same) && texts(recent@) == spec_add_recent(
                texts(list@),
                path@,
                same,
            ),
{
    let mut same: Vec<bool> = Vec::new();
    let mut i: usize = 0;
    while i < list.len()
        invariant
            i <= list@.len(),
            same@.len() == i,
            forall|j: int| 0 <= j < i && list@[j]@ == path@ ==> same@[j],
        decreases list@.len() - i,
    {
        same.push(same_path(list[i].as_str(), path));
        i = i + 1;
    }
    let recent = add_recent_marked(list, path, &same);
    proof {
        assert(marks_spelling(texts(list@), path@, same@));
    }
    recent
}

/// Dropping the marked entries of a longer prefix only adds at the end.
proof fn lemma_kept_prefix(list: Seq<Seq<char>>, same: Seq<bool>, i: int, j: int)
    requires
        0 <= i <= j <= list.len(),
        same.len() == list.len(),
    ensures
        kept(list.take(i), same).is_prefix_of(kept(list.take(j), same)),
    decreases j - i,
{
    if i < j {
        lemma_kept_prefix(list, same, i, j - 1);
        assert(list.take(j).drop_last() =~= list.take(j - 1));
    }
}

/// The recent list keeps its promises: the opened path comes first, it
/// never grows past [`RECENT_MAX`] entries, and when the entries were
/// spelled differently before and every entry spelled as the opened path
/// is marked as the same file, no spelling is listed twice.
pub proof fn law_recent_list(list: Seq<Seq<char>>, path: Seq<char>, same: Seq<bool>)
    requires
        marks_spelling(list, path, same),
        forall|i: int, j: int| 0 <= i < j < list.len() ==> list[i] != list[j],
    ensures
        spec_add_recent(list, path, same)[0] == path,
        1 <= spec_add_recent(list, path, same).len() <= RECENT_MAX,
        forall|i: int, j: int|
            0 <= i < j < spec_add_recent(list, path, same).len() ==> spec_add_recent(
                list,
                path,
                same,
            )[i] != spec_add_recent(list, path, same)[j],
{
    let rest = kept(list, same);
    lemma_kept_distinct(list, path, same);
    let full = seq![path] + rest;
    assert forall|i: int, j: int| 0 <= i < j < full.len() implies full[i] != full[j] by {
        if i == 0 {
            lemma_kept_from(list, path, same, j - 1);
        } else {
            assert(full[i] == rest[i - 1] && full[j] == rest[j - 1]);
        }
    }
}

/// Every entry left after dropping the marked ones is an unmarked entry of
/// the list, so it is not spelled as `path`.
proof fn lemma_kept_from(list: Seq<Seq<char>>, path: Seq<char>, same: Seq<bool>, k: int)
    requires
        marks_spelling(list, path, same),
        0 <= k < kept(list, same).len(),
    ensures
        exists|m: int| 0 <= m < list.len() && list[m] == kept(list, same)[k],
        kept(list, same)[k] != path,
    decreases list.len(),
{
    let init = list.drop_last();
    let w = kept(init, same);
    assert(marks_spelling(init, path, same.drop_last()));
    lemma_kept_same_marks(init, same);
    if k < w.len() {
        lemma_kept_from(init, path, same.drop_last(), k);
        let m = choose|m: int| 0 <= m < init.len() && init[m] == w[k];
        assert(list[m] == init[m]);
    } else {
        assert(list[list.len() - 1] == list.last());
        assert(!same[list.len() - 1]);
    }
}

/// Only the marks of the entries themselves count.
proof fn lemma_kept_same_marks(list: Seq<Seq<char>>, same: Seq<bool>)
    requires
        same.len() >= list.len() + 1,
    ensures
        kept(list, same) == kept(list, same.drop_last()),
    decreases list.len(),
{
    if list.len() > 0 {
        lemma_kept_same_marks(list.drop_last(), same);
    }
}

/// Dropping marked entries keeps a list free of repeats.
proof fn lemma_kept_distinct(list: Seq<Seq<char>>, path: Seq<char>, same: Seq<bool>)
    requires
        marks_spelling(list, path, same),
        forall|i: int, j: int| 0 <= i < j < list.len() ==> list[i] != list[j],
    ensures
        forall|i: int, j: int|
            0 <= i < j < kept(list, same).len() ==> kept(list, same)[i] != kept(list, same)[j],
    decreases list.len(),
{
    if list.len() > 0 {
        let init = list.drop_last();
        lemma_kept_same_marks(init, same);
        assert(marks_spelling(init, path, same.drop_last()));
        lemma_kept_distinct(init, path, same.drop_last());
        let w = kept(init, same);
        assert forall|i: int| 0 <= i < w.len() implies w[i] != list.last() by {
            lemma_kept_from(init, path, same.drop_last(), i);
            let m = choose|m: int| 0 <= m < init.len() && init[m] == w[i];
            assert(list[m] == init[m]);
            assert(list[list.len() - 1] == list.last());
        }
    }
}

} // verus!
