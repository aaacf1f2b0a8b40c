//! A compiled pattern. Like a `glob` pattern, but only the `*` wildcard is
//! supported: `*` matches any (possibly empty) run of characters.

use vstd::prelude::*;
use vstd::string::StrSliceExecFns;
use vstd::string::StringExecFns;

use crate::text::{find_first, find_sub, lemma_find_sub, matches_at, occurs_at};

verus! {

/// Literal blocks obtained by splitting a pattern string at every `*`:
/// one more block than there are wildcards, in order, possibly empty.
pub open spec fn split_on_star(s: Seq<char>) -> Seq<Seq<char>>
    decreases s.len(),
{
    if s.len() == 0 {
        seq![s]
    } else if s[0] == '*' {
        seq![Seq::<char>::empty()] + split_on_star(s.drop_first())
    } else {
        let rest = split_on_star(s.drop_first());
        seq![seq![s[0]] + rest[0]] + rest.drop_first()
    }
}

/// Splitting always yields at least one block.
pub proof fn lemma_split_len(s: Seq<char>)
    ensures
        split_on_star(s).len() >= 1,
    decreases s.len(),
{
    if s.len() != 0 {
        lemma_split_len(s.drop_first());
    }
}

/// The blocks after the first one, each preceded by a `*`.
pub open spec fn join_tail(blocks: Seq<Seq<char>>) -> Seq<char>
    decreases blocks.len(),
{
    if blocks.len() == 0 {
        Seq::empty()
    } else {
        seq!['*'] + blocks[0] + join_tail(blocks.drop_first())
    }
}

/// The pattern string a block list stands for: the blocks joined with `*`.
pub open spec fn join_with_star(blocks: Seq<Seq<char>>) -> Seq<char> {
    if blocks.len() == 0 {
        Seq::empty()
    } else {
        blocks[0] + join_tail(blocks.drop_first())
    }
}

/// Round trip: joining the blocks that splitting produced reproduces the
/// original pattern string exactly.
pub proof fn lemma_join_split(s: Seq<char>)
    ensures
        join_with_star(split_on_star(s)) == s,
    decreases s.len(),
{
    if s.len() == 0 {
        assert(join_with_star(split_on_star(s)) =~= s);
    } else if s[0] == '*' {
        lemma_join_split(s.drop_first());
        lemma_split_len(s.drop_first());
        let rest = split_on_star(s.drop_first());
        assert(split_on_star(s).drop_first() =~~= rest);
        assert(join_with_star(split_on_star(s)) == join_tail(rest));
        assert(rest[0] + join_tail(rest.drop_first()) == s.drop_first());
        assert(join_tail(rest) =~= seq!['*'] + (rest[0] + join_tail(rest.drop_first())));
        assert(seq!['*'] + s.drop_first() =~= s);
    } else {
        lemma_join_split(s.drop_first());
        lemma_split_len(s.drop_first());
        let rest = split_on_star(s.drop_first());
        let whole = split_on_star(s);
        assert(whole[0] == seq![s[0]] + rest[0]);
        assert(whole.drop_first() =~~= rest.drop_first());
        if rest.len() == 1 {
            assert(join_with_star(whole) == whole[0]);
            assert(join_with_star(rest) == rest[0]);
            assert(whole[0] =~= seq![s[0]] + s.drop_first());
            assert(seq![s[0]] + s.drop_first() =~= s);
        } else {
            assert(join_with_star(whole) == (seq![s[0]] + rest[0]) + join_tail(rest.drop_first()));
            assert(rest[0] + join_tail(rest.drop_first()) == s.drop_first());
            assert((seq![s[0]] + rest[0]) + join_tail(rest.drop_first()) =~= seq![s[0]] + (rest[0]
                + join_tail(rest.drop_first())));
            assert(seq![s[0]] + s.drop_first() =~= s);
        }
    }
}

/// Result of matching a string against the blocks that follow the first one.
/// Each block after the first is preceded by one wildcard, whose capture
/// stands just before it. Middle blocks anchor at their leftmost occurrence
/// (no backtracking); the final block must be a suffix.
pub open spec fn match_suffix_blocks(blocks: Seq<Seq<char>>, s: Seq<char>) -> Option<
    Seq<Seq<char>>,
>
    decreases blocks.len(),
{
    if blocks.len() == 0 {
        if s.len() == 0 {
            Some(Seq::empty())
        } else {
            None
        }
    } else if blocks.len() == 1 {
        let b = blocks[0];
        if b.len() <= s.len() && s.subrange(s.len() - b.len(), s.len() as int) == b {
            Some(seq![s.subrange(0, s.len() - b.len())])
        } else {
            None
        }
    } else {
        let b = blocks[0];
        match find_sub(s, b) {
            Some(i) => {
                match match_suffix_blocks(
                    blocks.drop_first(),
                    s.subrange(i + b.len(), s.len() as int),
                ) {
                    Some(caps) => Some(seq![s.subrange(0, i)] + caps),
                    None => None,
                }
            },
            None => None,
        }
    }
}

/// Result of matching `s` against a whole block list: the first block must be
/// a prefix, the rest behave as in `match_suffix_blocks`. `None` when the
/// string does not match; otherwise one capture per wildcard, left to right.
pub open spec fn glob_match(blocks: Seq<Seq<char>>, s: Seq<char>) -> Option<Seq<Seq<char>>> {
    if blocks.len() >= 1 && blocks[0].len() <= s.len() && s.subrange(0, blocks[0].len() as int)
        == blocks[0] {
        match_suffix_blocks(blocks.drop_first(), s.subrange(blocks[0].len() as int, s.len() as int))
    } else {
        None
    }
}

/// A compiled pattern: the literal text between the wildcards.
/// The pattern it stands for is the blocks joined with `*`.
#[derive(Debug, PartialEq, Eq, Clone)]
pub struct GlobStarPattern {
    /// Blocks of text to be matched literally.
    pub literal_blocks: Vec<String>,
}

impl View for GlobStarPattern {
    type V = Seq<Seq<char>>;

    open spec fn view(&self) -> Seq<Seq<char>> {
        self.literal_blocks.deep_view()
    }
}

impl GlobStarPattern {
    /// A compiled pattern always holds one more block than it has wildcards.
    pub open spec fn wf(&self) -> bool {
        self@.len() >= 1
    }

    /// Compiles a pattern string by splitting it at every `*`.
    /// This never fails; there is no way to escape a literal `*`.
    pub fn from(string: &str) -> (r: Self)
        ensures
            r@ == split_on_star(string@),
            r.wf(),
    {
        let s_len = string.unicode_len();
        let mut blocks: Vec<String> = Vec::new();
        let mut current: String = String::new();
        let mut i: usize = 0;
        proof {
            assert(string@.subrange(0, s_len as int) =~= string@);
            lemma_split_len(string@);
            let tail = split_on_star(string@);
            assert(blocks.deep_view() + (seq![current@ + tail[0]] + tail.drop_first()) =~~= tail);
        }
        while i < s_len
            invariant
                0 <= i <= s_len,
                s_len == string@.len(),
                ({
                    let tail = split_on_star(string@.subrange(i as int, s_len as int));
                    tail.len() >= 1 && split_on_star(string@) == blocks.deep_view() + (seq![
                        current@ + tail[0],
                    ] + tail.drop_first())
                }),
            decreases s_len - i,
        {
            let ghost prev_blocks = blocks.deep_view();
            let ghost prev_current = current@;
            let ghost sub_i = string@.subrange(i as int, s_len as int);
            let ghost sub_i1 = string@.subrange(i + 1, s_len as int);
            let ghost tail = split_on_star(sub_i);
            let ghost tail1 = split_on_star(sub_i1);
            proof {
                assert(sub_i[0] == string@[i as int]);
                assert(sub_i.drop_first() =~= sub_i1);
                lemma_split_len(sub_i1);
            }
            let c = string.get_char(i);
            if c == '*' {
                blocks.push(current);
                current = String::new();
                proof {
                    assert(tail =~~= seq![Seq::<char>::empty()] + tail1);
                    assert(blocks.deep_view() =~~= prev_blocks.push(prev_current));
                    assert(prev_current + tail[0] =~= prev_current);
                    assert((prev_blocks + (seq![prev_current + tail[0]] + tail.drop_first()))
                        =~~= (blocks.deep_view() + (seq![current@ + tail1[0]]
                        + tail1.drop_first())));
                }
            } else {
                let one = string.substring_char(i, i + 1);
                current.append(one);
                proof {
                    assert(one@ =~= seq![string@[i as int]]);
                    assert(tail =~~= seq![seq![sub_i[0]] + tail1[0]] + tail1.drop_first());
                    assert(current@ =~= prev_current + seq![sub_i[0]]);
                    assert(current@ + tail1[0] =~= prev_current + tail[0]);
                    assert((prev_blocks + (seq![prev_current + tail[0]] + tail.drop_first()))
                        =~~= (blocks.deep_view() + (seq![current@ + tail1[0]]
                        + tail1.drop_first())));
                }
            }
            i += 1;
        }
        let ghost prev_blocks = blocks.deep_view();
        let ghost prev_current = current@;
        let ghost tail = split_on_star(string@.subrange(i as int, s_len as int));
        proof {
            assert(string@.subrange(i as int, s_len as int) =~= Seq::<char>::empty());
            assert(tail =~~= seq![Seq::<char>::empty()]);
            assert(prev_current + tail[0] =~= prev_current);
        }
        blocks.push(current);
        let r = GlobStarPattern { literal_blocks: blocks };
        proof {
            assert(r@ =~~= prev_blocks.push(prev_current));
            assert((prev_blocks + (seq![prev_current + tail[0]] + tail.drop_first()))
                =~~= prev_blocks.push(prev_current));
            lemma_split_len(string@);
        }
        r
    }

    /// The number of `*` wildcards in the pattern.
    pub fn wildcards_number(&self) -> (n: usize)
        requires
            self.wf(),
        ensures
            n == self@.len() - 1,
    {
        self.literal_blocks.len() - 1
    }

    /// The pattern string this compiled pattern stands for: the literal
    /// blocks joined with `*`.
    pub fn to_string(&self) -> (r: String)
        requires
            self.wf(),
        ensures
            r@ == join_with_star(self@),
    {
        let mut out = self.literal_blocks[0].clone();
        let mut i: usize = 1;
        proof {
            assert(self@.subrange(1, self@.len() as int) =~~= self@.drop_first());
        }
        while i < self.literal_blocks.len()
            invariant
                1 <= i <= self.literal_blocks@.len(),
                self@.len() == self.literal_blocks@.len(),
                out@ + join_tail(self@.subrange(i as int, self@.len() as int)) == join_with_star(
                    self@,
                ),
            decreases self.literal_blocks@.len() - i,
        {
            let star = "*";
            proof {
                reveal_strlit("*");
                let tail = self@.subrange(i as int, self@.len() as int);
                let tail1 = self@.subrange(i + 1, self@.len() as int);
                assert(star@ =~= seq!['*']);
                assert(tail.drop_first() =~~= tail1);
                assert(tail[0] == self@[i as int]);
                assert(self@[i as int] == self.literal_blocks@[i as int]@);
                assert((out@ + (seq!['*'] + tail[0] + join_tail(tail1))) =~= ((out@ + seq!['*']
                    + self@[i as int]) + join_tail(tail1)));
            }
            out.append(star);
            out.append(self.literal_blocks[i].as_str());
            i += 1;
        }
        proof {
            assert(join_tail(self@.subrange(i as int, self@.len() as int)) =~= Seq::<char>::empty());
            assert(out@ + Seq::<char>::empty() =~= out@);
        }
        out
    }

    /// Matches `string` against the pattern. On a match, returns the
    /// substrings the wildcards consumed, one per wildcard, left to right;
    /// otherwise `None`. Middle blocks anchor at their leftmost occurrence
    /// and the search never backtracks, so some strings that admit a valid
    /// decomposition are still rejected.
    pub fn match_string(&self, string: &str) -> (r: Option<Vec<String>>)
        requires
            self.wf(),
        ensures
            match r {
                Some(caps) => glob_match(self@, string@) == Some(caps.deep_view()) && caps@.len()
                    == self@.len() - 1,
                None => glob_match(self@, string@) is None,
            },
    {
        let s_len = string.unicode_len();
        let n = self.literal_blocks.len() - 1;
        let b0 = self.literal_blocks[0].as_str();
        let b0_len = b0.unicode_len();
        proof {
            assert(self@[0] == self.literal_blocks@[0]@);
        }
        if b0_len > s_len {
            return None;
        }
        if !matches_at(string, b0, 0) {
            proof {
                assert(string@.subrange(0, b0@.len() as int) != b0@);
            }
            return None;
        }
        proof {
            assert(string@.subrange(0, self@[0].len() as int) == self@[0]);
            assert(self@.drop_first() =~~= self@.subrange(1, (n + 1) as int));
        }
        let mut caps: Vec<String> = Vec::new();
        let mut pos: usize = b0_len;
        if n == 0 {
            if pos == s_len {
                proof {
                    assert(string@.subrange(pos as int, s_len as int).len() == 0);
                    assert(caps.deep_view() =~~= Seq::<Seq<char>>::empty());
                }
                return Some(caps);
            } else {
                return None;
            }
        }
        proof {
            let tail = match_suffix_blocks(
                self@.subrange(1, (n + 1) as int),
                string@.subrange(pos as int, s_len as int),
            );
            if tail is Some {
                assert(caps.deep_view() + tail.unwrap() =~~= tail.unwrap());
            }
        }
        let mut bi: usize = 1;
        while bi < n
            invariant
                1 <= bi <= n,
                n + 1 == self@.len(),
                self@.len() == self.literal_blocks@.len(),
                pos <= s_len,
                s_len == string@.len(),
                caps@.len() == bi - 1,
                ({
                    let tail = match_suffix_blocks(
                        self@.subrange(bi as int, (n + 1) as int),
                        string@.subrange(pos as int, s_len as int),
                    );
                    match tail {
                        Some(cs) => glob_match(self@, string@) == Some(caps.deep_view() + cs),
                        None => glob_match(self@, string@) is None,
                    }
                }),
            decreases n - bi,
        {
            let ghost blocks_tail = self@.subrange(bi as int, (n + 1) as int);
            let ghost rem_view = string@.subrange(pos as int, s_len as int);
            let block = self.literal_blocks[bi].as_str();
            let block_len = block.unicode_len();
            let rem = string.substring_char(pos, s_len);
            proof {
                assert(blocks_tail.len() >= 2);
                assert(blocks_tail[0] == self.literal_blocks@[bi as int]@);
                assert(blocks_tail.drop_first() =~~= self@.subrange(bi + 1, (n + 1) as int));
            }
            match find_first(rem, block) {
                None => {
                    return None;
                },
                Some(fi) => {
                    proof {
                        lemma_find_sub(rem@, block@);
                        assert(occurs_at(rem_view, block@, fi as int));
                    }
                    let cap = String::from_str(rem.substring_char(0, fi));
                    let ghost prev_caps = caps.deep_view();
                    caps.push(cap);
                    proof {
                        let tail1 = match_suffix_blocks(
                            blocks_tail.drop_first(),
                            rem_view.subrange(fi + block@.len(), rem_view.len() as int),
                        );
                        assert(caps.deep_view() =~~= prev_caps.push(cap@));
                        assert(rem_view.subrange(fi + block@.len(), rem_view.len() as int)
                            =~= string@.subrange(pos + fi + block_len, s_len as int));
                        match tail1 {
                            Some(cs1) => {
                                assert((prev_caps + (seq![rem_view.subrange(0, fi as int)] + cs1))
                                    =~~= (caps.deep_view() + cs1));
                            },
                            None => {},
                        }
                    }
                    pos = pos + fi + block_len;
                    bi += 1;
                },
            }
        }
        let ghost blocks_tail = self@.subrange(bi as int, (n + 1) as int);
        let ghost rem_view = string@.subrange(pos as int, s_len as int);
        let last = self.literal_blocks[n].as_str();
        let last_len = last.unicode_len();
        proof {
            assert(blocks_tail.len() == 1);
            assert(blocks_tail[0] == self.literal_blocks@[n as int]@);
        }
        let rem_len = s_len - pos;
        if last_len > rem_len {
            return None;
        }
        let rem = string.substring_char(pos, s_len);
        if !matches_at(rem, last, rem_len - last_len) {
            proof {
                assert(rem_view.subrange(rem_view.len() - last@.len(), rem_view.len() as int)
                    != last@);
            }
            return None;
        }
        let cap = String::from_str(rem.substring_char(0, rem_len - last_len));
        let ghost prev_caps = caps.deep_view();
        caps.push(cap);
        proof {
            assert(rem_view.subrange(rem_view.len() - last@.len(), rem_view.len() as int)
                == last@);
            assert(caps.deep_view() =~~= prev_caps.push(cap@));
            assert((prev_caps + seq![rem_view.subrange(0, rem_view.len() - last@.len())])
                =~~= caps.deep_view());
        }
        Some(caps)
    }
}

/// The captures interleaved between the blocks after the first one:
/// `caps[0] + blocks[0] + caps[1] + blocks[1] + ...`.
pub open spec fn interleave_tail(blocks: Seq<Seq<char>>, caps: Seq<Seq<char>>) -> Seq<char>
    recommends
        blocks.len() == caps.len(),
    decreases blocks.len(),
{
    if blocks.len() == 0 {
        Seq::empty()
    } else {
        caps[0] + blocks[0] + interleave_tail(blocks.drop_first(), caps.drop_first())
    }
}

/// The string a block list and a capture list stand for together:
/// `blocks[0] + caps[0] + blocks[1] + caps[1] + ... + blocks[last]`.
pub open spec fn interleave(blocks: Seq<Seq<char>>, caps: Seq<Seq<char>>) -> Seq<char>
    recommends
        blocks.len() == caps.len() + 1,
{
    if blocks.len() == 0 {
        Seq::empty()
    } else {
        blocks[0] + interleave_tail(blocks.drop_first(), caps)
    }
}

proof fn lemma_match_suffix_decomposition(blocks: Seq<Seq<char>>, s: Seq<char>)
    requires
        match_suffix_blocks(blocks, s) is Some,
    ensures
        ({
            let caps = match_suffix_blocks(blocks, s).unwrap();
            caps.len() == blocks.len() && s == interleave_tail(blocks, caps)
        }),
    decreases blocks.len(),
{
    let caps = match_suffix_blocks(blocks, s).unwrap();
    if blocks.len() == 0 {
        assert(s =~= interleave_tail(blocks, caps));
    } else if blocks.len() == 1 {
        let b = blocks[0];
        assert(caps =~~= seq![s.subrange(0, s.len() - b.len())]);
        assert(interleave_tail(blocks.drop_first(), caps.drop_first()) == Seq::<char>::empty());
        assert(s =~= s.subrange(0, s.len() - b.len()) + s.subrange(s.len() - b.len(), s.len() as int)
            + Seq::<char>::empty());
    } else {
        let b = blocks[0];
        let i = find_sub(s, b).unwrap();
        lemma_find_sub(s, b);
        assert(occurs_at(s, b, i));
        let rest = s.subrange(i + b.len(), s.len() as int);
        lemma_match_suffix_decomposition(blocks.drop_first(), rest);
        let caps1 = match_suffix_blocks(blocks.drop_first(), rest).unwrap();
        assert(caps =~~= seq![s.subrange(0, i)] + caps1);
        assert(caps.drop_first() =~~= caps1);
        assert(interleave_tail(blocks, caps) == caps[0] + blocks[0] + interleave_tail(
            blocks.drop_first(),
            caps1,
        ));
        assert(s =~= s.subrange(0, i) + s.subrange(i, i + b.len()) + rest);
    }
}

/// Match decomposition: whenever a match succeeds, the matched string is
/// exactly the literal blocks with the captured fragments interleaved
/// between them, the fragments having been fixed by the leftmost,
/// non-backtracking search that `glob_match` defines.
pub proof fn lemma_match_decomposition(blocks: Seq<Seq<char>>, s: Seq<char>)
    requires
        blocks.len() >= 1,
        glob_match(blocks, s) is Some,
    ensures
        ({
            let caps = glob_match(blocks, s).unwrap();
            caps.len() == blocks.len() - 1 && s == interleave(blocks, caps)
        }),
{
    let b0 = blocks[0];
    let rest = s.subrange(b0.len() as int, s.len() as int);
    lemma_match_suffix_decomposition(blocks.drop_first(), rest);
    assert(s =~= s.subrange(0, b0.len() as int) + rest);
}

} // verus!
