//! Source path pattern. Acts like a glob, but only the single `*` wildcard
//! is supported, and only in the filename part of the path.

use vstd::prelude::*;
use vstd::string::StrSliceExecFns;
use vstd::string::StringExecFns;

use crate::glob_star_pattern::{
    glob_match, join_with_star, lemma_join_split, split_on_star, GlobStarPattern,
};
use crate::text::{dir_cut, dir_cut_index, lemma_dir_cut};

verus! {

/// Error from parsing a source pattern: a `*` wildcard stands in the
/// directory part, where it is not allowed.
#[derive(Debug, PartialEq, Eq, Clone, Copy)]
pub enum SourcePatternError {
    WildcardInDirectory,
}

/// The `(path, fragments)` pairs for the file names that match: each name
/// that the blocks match contributes the directory prefix joined with the
/// name, together with its captured fragments, in listing order.
pub open spec fn match_list(
    blocks: Seq<Seq<char>>,
    dir: Seq<char>,
    names: Seq<Seq<char>>,
) -> Seq<(Seq<char>, Seq<Seq<char>>)>
    decreases names.len(),
{
    if names.len() == 0 {
        Seq::empty()
    } else {
        let rest = match_list(blocks, dir, names.drop_first());
        match glob_match(blocks, names[0]) {
            Some(caps) => seq![(dir + names[0], caps)] + rest,
            None => rest,
        }
    }
}

/// A parsed source pattern: a literal directory prefix, up to and including
/// the last `/`, and a compiled glob for the filename part.
#[derive(Debug, PartialEq, Eq, Clone)]
pub struct SourcePathPattern {
    /// Directory the pattern looks in; no wildcard is allowed here.
    pub directory: String,
    /// Compiled glob that the filenames in that directory are matched against.
    pub filename_pattern: GlobStarPattern,
}

impl SourcePathPattern {
    /// The filename glob holds one more block than it has wildcards.
    pub open spec fn wf(&self) -> bool {
        self.filename_pattern.wf()
    }

    /// Parses a pattern string: the text up to and including the last `/`
    /// is the directory, the rest is the filename glob. Fails exactly when
    /// the directory part contains a `*` wildcard.
    pub fn from_str(string: &str) -> (r: Result<Self, SourcePatternError>)
        ensures
            match r {
                Ok(p) => (forall|i: int| 0 <= i < dir_cut(string@) ==> string@[i] != '*')
                    && p.directory@ == string@.subrange(0, dir_cut(string@))
                    && p.filename_pattern@ == split_on_star(
                    string@.subrange(dir_cut(string@), string@.len() as int),
                ) && p.wf(),
                Err(e) => (exists|i: int| 0 <= i < dir_cut(string@) && string@[i] == '*') && e
                    == SourcePatternError::WildcardInDirectory,
            },
    {
        let total = string.unicode_len();
        let cut = dir_cut_index(string);
        let mut i: usize = 0;
        while i < cut
            invariant
                0 <= i <= cut,
                cut <= total,
                total == string@.len(),
                cut == dir_cut(string@),
                forall|j: int| 0 <= j < i ==> string@[j] != '*',
            decreases cut - i,
        {
            if string.get_char(i) == '*' {
                return Err(SourcePatternError::WildcardInDirectory);
            }
            i += 1;
        }
        let directory = String::from_str(string.substring_char(0, cut));
        let filename_pattern = GlobStarPattern::from(string.substring_char(cut, total));
        Ok(SourcePathPattern { directory, filename_pattern })
    }

    /// The number of `*` wildcards in the filename pattern.
    pub fn wildcards_number(&self) -> (n: usize)
        requires
            self.wf(),
        ensures
            n == self.filename_pattern@.len() - 1,
    {
        self.filename_pattern.wildcards_number()
    }

    /// The pattern string this parsed pattern stands for: the directory
    /// prefix followed by the filename glob joined with `*`.
    pub fn to_string(&self) -> (r: String)
        requires
            self.wf(),
        ensures
            r@ == self.directory@ + join_with_star(self.filename_pattern@),
    {
        let mut out = self.directory.clone();
        let glob = self.filename_pattern.to_string();
        out.append(glob.as_str());
        out
    }

    /// Pairs each matching file name with the fragments its wildcards
    /// captured. `file_names` holds the names of the regular files in the
    /// pattern's directory, in listing order; each name that matches the
    /// filename glob contributes the directory prefix joined with the name,
    /// together with its captures. Names that do not match are skipped.
    pub fn matching_files(&self, file_names: &Vec<String>) -> (r: Vec<(String, Vec<String>)>)
        requires
            self.wf(),
        ensures
            r.deep_view() == match_list(
                self.filename_pattern@,
                self.directory@,
                file_names.deep_view(),
            ),
    {
        let ghost blocks = self.filename_pattern@;
        let ghost dir = self.directory@;
        let ghost names = file_names.deep_view();
        let mut result: Vec<(String, Vec<String>)> = Vec::new();
        let mut i: usize = 0;
        proof {
            assert(names.subrange(0, names.len() as int) =~~= names);
            assert(result.deep_view() + match_list(blocks, dir, names) =~~= match_list(
                blocks,
                dir,
                names,
            ));
        }
        while i < file_names.len()
            invariant
                0 <= i <= file_names@.len(),
                names == file_names.deep_view(),
                names.len() == file_names@.len(),
                blocks == self.filename_pattern@,
                dir == self.directory@,
                self.wf(),
                match_list(blocks, dir, names) == result.deep_view() + match_list(
                    blocks,
                    dir,
                    names.subrange(i as int, names.len() as int),
                ),
            decreases file_names@.len() - i,
        {
            let ghost names_i = names.subrange(i as int, names.len() as int);
            let ghost names_i1 = names.subrange(i + 1, names.len() as int);
            proof {
                assert(names_i[0] == names[i as int]);
                assert(names_i.drop_first() =~~= names_i1);
                assert(file_names@[i as int]@ == names[i as int]);
            }
            let name = file_names[i].as_str();
            match self.filename_pattern.match_string(name) {
                Some(caps) => {
                    let path = self.directory.clone().concat(name);
                    let ghost prev = result.deep_view();
                    result.push((path, caps));
                    proof {
                        assert(result.deep_view() =~~= prev.push((path@, caps.deep_view())));
                        assert((prev + (seq![(dir + names[i as int], caps.deep_view())]
                            + match_list(blocks, dir, names_i1))) =~~= (result.deep_view()
                            + match_list(blocks, dir, names_i1)));
                    }
                },
                None => {
                },
            }
            i += 1;
        }
        proof {
            assert(match_list(blocks, dir, names.subrange(i as int, names.len() as int))
                =~~= Seq::<(Seq<char>, Seq<Seq<char>>)>::empty());
            assert(result.deep_view() + Seq::<(Seq<char>, Seq<Seq<char>>)>::empty()
                =~~= result.deep_view());
        }
        result
    }
}

/// Round trip: splitting any pattern string at its last `/` and re-joining
/// the directory prefix with the re-serialized filename glob reproduces the
/// original string exactly.
pub proof fn lemma_source_round_trip(s: Seq<char>)
    ensures
        s.subrange(0, dir_cut(s)) + join_with_star(
            split_on_star(s.subrange(dir_cut(s), s.len() as int)),
        ) == s,
{
    lemma_dir_cut(s);
    lemma_join_split(s.subrange(dir_cut(s), s.len() as int));
    assert(s.subrange(0, dir_cut(s)) + s.subrange(dir_cut(s), s.len() as int) =~= s);
}

} // verus!
