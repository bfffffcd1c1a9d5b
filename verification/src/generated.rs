//! Generated files, by their path.
use crate::text::{
    eq_text, lemma_before_irreflexive, lemma_before_total, lemma_before_transitive, text_before,
    text_before_spec,
};
use vstd::prelude::*;
use vstd::string::*;

verus! {

/// One generated file.
#[derive(Clone, Debug, PartialEq, Eq)]
pub struct GeneratedFile {
    pub path: String,
    pub contents: String,
}

/// Generated files, in the order of their paths and without a path that occurs
/// twice.
pub struct GeneratedFiles {
    files: Vec<GeneratedFile>,
}

/// Files in strictly increasing order of their paths.
pub open spec fn in_path_order(files: Seq<GeneratedFile>) -> bool {
    forall|i: int, j: int|
        0 <= i < j < files.len() ==> text_before_spec(
            (#[trigger] files[i]).path@,
            (#[trigger] files[j]).path@,
        )
}

/// Whether a file has a path.
pub open spec fn has_path(files: Seq<GeneratedFile>, path: Seq<char>) -> bool {
    exists|i: int| 0 <= i < files.len() && (#[trigger] files[i]).path@ == path
}

/// The contents of files by their paths.
pub open spec fn by_path(files: Seq<GeneratedFile>) -> Map<Seq<char>, Seq<char>> {
    Map::new(
        |path: Seq<char>| has_path(files, path),
        |path: Seq<char>|
            {
                let i = choose|i: int| 0 <= i < files.len() && (#[trigger] files[i]).path@ == path;
                files[i].contents@
            },
    )
}

impl View for GeneratedFiles {
    type V = Map<Seq<char>, Seq<char>>;

    closed spec fn view(&self) -> Map<Seq<char>, Seq<char>> {
        by_path(self.files@)
    }
}

proof fn lemma_by_path(files: Seq<GeneratedFile>, i: int)
    requires
        in_path_order(files),
        0 <= i < files.len(),
    ensures
        by_path(files).contains_key(files[i].path@),
        by_path(files)[files[i].path@] == files[i].contents@,
{
    let path = files[i].path@;
    let k = choose|k: int| 0 <= k < files.len() && (#[trigger] files[k]).path@ == path;
    lemma_before_irreflexive(path);
    if k < i {
        assert(text_before_spec(files[k].path@, files[i].path@));
    } else if i < k {
        assert(text_before_spec(files[i].path@, files[k].path@));
    }
}

proof fn lemma_set(
    before: Seq<GeneratedFile>,
    after: Seq<GeneratedFile>,
    at: int,
    file: GeneratedFile,
)
    requires
        in_path_order(before),
        in_path_order(after),
        0 <= at < after.len(),
        after[at] == file,
        (after.len() == before.len() && before[at].path@ == file.path@ && after == before.update(
            at,
            file,
        )) || (after == before.insert(at, file) && at <= before.len()),
    ensures
        by_path(after) == by_path(before).insert(file.path@, file.contents@),
{
    let expected = by_path(before).insert(file.path@, file.contents@);
    lemma_by_path(after, at);
    assert forall|path: Seq<char>| by_path(after).contains_key(path) == expected.contains_key(path)
        by {
        if has_path(after, path) {
            let i = choose|i: int| 0 <= i < after.len() && (#[trigger] after[i]).path@ == path;
            if i != at {
                if after.len() == before.len() {
                    assert(before[i].path@ == path);
                } else if i < at {
                    assert(before[i].path@ == path);
                } else {
                    assert(before[i - 1].path@ == path);
                }
                assert(has_path(before, path));
            }
        }
        if has_path(before, path) {
            let i = choose|i: int| 0 <= i < before.len() && (#[trigger] before[i]).path@ == path;
            if after.len() == before.len() {
                assert(after[i].path@ == path);
            } else if i < at {
                assert(after[i].path@ == path);
            } else {
                assert(after[i + 1].path@ == path);
            }
        }
    }
    assert forall|path: Seq<char>| by_path(after).contains_key(path) implies by_path(after)[path]
        == expected[path] by {
        let i = choose|i: int| 0 <= i < after.len() && (#[trigger] after[i]).path@ == path;
        lemma_by_path(after, i);
        if path != file.path@ {
            let k = if after.len() == before.len() || i < at {
                i
            } else {
                i - 1
            };
            assert(before[k] == after[i]);
            lemma_by_path(before, k);
        }
    }
    assert(by_path(after) =~= expected);
}

impl GeneratedFiles {
    #[verifier::type_invariant]
    closed spec fn ordered(self) -> bool {
        in_path_order(self.files@)
    }

    /// No files.
    #[must_use]
    pub fn new() -> (files: Self)
        ensures
            files@ == Map::<Seq<char>, Seq<char>>::empty(),
    {
        let files = GeneratedFiles { files: Vec::new() };
        assert(files@ =~= Map::<Seq<char>, Seq<char>>::empty());
        files
    }

    /// The files with one more, in place of one with the same path.
    #[must_use]
    pub fn with(self, path: &str, contents: String) -> (files: Self)
        ensures
            files@ == self@.insert(path@, contents@),
    {
        proof {
            use_type_invariant(&self);
        }
        let ghost before = self.files@;
        let mut list = self.files;
        let file = GeneratedFile { path: path.to_owned(), contents };
        let ghost added = file;
        let mut at: usize = 0;
        while at < list.len() && text_before(list[at].path.as_str(), path)
            invariant
                at <= list@.len(),
                list@ == before,
                in_path_order(before),
                forall|i: int|
                    0 <= i < at ==> text_before_spec((#[trigger] before[i]).path@, path@),
            decreases list@.len() - at,
        {
            at += 1;
        }
        if at < list.len() && eq_text(list[at].path.as_str(), path) {
            list.set(at, file);
            proof {
                assert forall|i: int, j: int| 0 <= i < j < list@.len() implies text_before_spec(
                    (#[trigger] list@[i]).path@,
                    (#[trigger] list@[j]).path@,
                ) by {
                    assert(text_before_spec(before[i].path@, before[j].path@));
                }
                lemma_set(before, list@, at as int, added);
            }
        } else {
            proof {
                if at < before.len() {
                    lemma_before_total(before[at as int].path@, path@);
                }
            }
            list.insert(at, file);
            proof {
                assert forall|i: int, j: int| 0 <= i < j < list@.len() implies text_before_spec(
                    (#[trigger] list@[i]).path@,
                    (#[trigger] list@[j]).path@,
                ) by {
                    if j < at {
                        assert(list@[i] == before[i] && list@[j] == before[j]);
                    } else if j == at {
                        assert(list@[i] == before[i]);
                    } else if i < at {
                        assert(list@[i] == before[i] && list@[j] == before[j - 1]);
                    } else if i == at {
                        assert(list@[j] == before[j - 1]);
                        if j - 1 > at {
                            assert(text_before_spec(before[at as int].path@, before[j - 1].path@));
                            lemma_before_transitive(
                                path@,
                                before[at as int].path@,
                                before[j - 1].path@,
                            );
                        }
                    } else {
                        assert(list@[i] == before[i - 1] && list@[j] == before[j - 1]);
                    }
                }
                lemma_set(before, list@, at as int, added);
            }
        }
        GeneratedFiles { files: list }
    }

    /// The contents of the file with a path.
    #[must_use]
    pub fn file(&self, path: &str) -> (contents: Option<&str>)
        ensures
            match contents {
                Some(contents) => self@.contains_key(path@) && self@[path@] == contents@,
                None => !self@.contains_key(path@),
            },
    {
        proof {
            use_type_invariant(self);
        }
        let mut at: usize = 0;
        while at < self.files.len()
            invariant
                at <= self.files@.len(),
                in_path_order(self.files@),
                forall|i: int| 0 <= i < at ==> (#[trigger] self.files@[i]).path@ != path@,
            decreases self.files@.len() - at,
        {
            if eq_text(self.files[at].path.as_str(), path) {
                proof {
                    lemma_by_path(self.files@, at as int);
                }
                return Some(self.files[at].contents.as_str());
            }
            at += 1;
        }
        None
    }

    /// The files in the order of their paths.
    #[must_use]
    pub fn files(&self) -> (files: &[GeneratedFile])
        ensures
            in_path_order(files@),
            by_path(files@) == self@,
    {
        proof {
            use_type_invariant(self);
        }
        self.files.as_slice()
    }

    /// The files in the order of their paths.
    #[must_use]
    pub fn into_files(self) -> (files: Vec<GeneratedFile>)
        ensures
            in_path_order(files@),
            by_path(files@) == self@,
    {
        proof {
            use_type_invariant(&self);
        }
        self.files
    }
}

} // verus!
