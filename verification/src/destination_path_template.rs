//! Destination path template. The template can contain markers such as `#1`
//! or `#2`; substitution replaces each marker by the fragment with that
//! number, for instance by the text a source wildcard matched.

use vstd::prelude::*;
use vstd::string::StrSliceExecFns;
use vstd::string::StringExecFns;

use crate::text::{dir_cut, dir_cut_index, occurs_at};

verus! {

/// The decimal character of a single digit value.
pub open spec fn decimal_digit(d: nat) -> char {
    if d == 0 {
        '0'
    } else if d == 1 {
        '1'
    } else if d == 2 {
        '2'
    } else if d == 3 {
        '3'
    } else if d == 4 {
        '4'
    } else if d == 5 {
        '5'
    } else if d == 6 {
        '6'
    } else if d == 7 {
        '7'
    } else if d == 8 {
        '8'
    } else {
        '9'
    }
}

/// The decimal digit string of `n`, most significant digit first.
pub open spec fn decimal_digits(n: nat) -> Seq<char>
    decreases n,
{
    if n < 10 {
        seq![decimal_digit(n)]
    } else {
        proof {
            assert(n / 10 < n) by (nonlinear_arith)
                requires
                    n >= 10,
            ;
        }
        decimal_digits(n / 10).push(decimal_digit(n % 10))
    }
}

/// The largest index in `1..=max` whose decimal digit string is a prefix of
/// `s`; candidates are tried from `max` downward, so the largest one wins.
pub open spec fn best_marker(s: Seq<char>, max: nat) -> Option<nat>
    decreases max,
{
    if max == 0 {
        None
    } else if occurs_at(s, decimal_digits(max), 0) {
        Some(max)
    } else {
        best_marker(s, (max - 1) as nat)
    }
}

/// What `best_marker` returns: a winning index has its digit string as a
/// prefix of `s`; when it returns nothing, no candidate index has.
pub proof fn lemma_best_marker(s: Seq<char>, max: nat)
    ensures
        match best_marker(s, max) {
            Some(k) => 1 <= k <= max && occurs_at(s, decimal_digits(k), 0),
            None => forall|k: nat| 1 <= k <= max ==> !occurs_at(s, decimal_digits(k), 0),
        },
    decreases max,
{
    if max != 0 && !occurs_at(s, decimal_digits(max), 0) {
        lemma_best_marker(s, (max - 1) as nat);
    }
}

/// Markers and literal blocks of a filename template. Scanning left to
/// right, a `#` followed by the digit string of some index in `1..=max`
/// (the largest such index wins) closes the current literal block and
/// records the marker; any other character, a bare `#` included, extends
/// the current block. Always one block more than there are markers.
pub open spec fn scan_markers(s: Seq<char>, max: u8) -> (Seq<u8>, Seq<Seq<char>>)
    decreases s.len(),
{
    if s.len() == 0 {
        (Seq::empty(), seq![s])
    } else if s[0] == '#' && best_marker(s.drop_first(), max as nat) is Some {
        let k = best_marker(s.drop_first(), max as nat).unwrap();
        proof {
            lemma_best_marker(s.drop_first(), max as nat);
        }
        let rest = s.subrange(1 + decimal_digits(k).len() as int, s.len() as int);
        let pair = scan_markers(rest, max);
        (seq![k as u8] + pair.0, seq![Seq::<char>::empty()] + pair.1)
    } else {
        let pair = scan_markers(s.drop_first(), max);
        (pair.0, seq![seq![s[0]] + pair.1[0]] + pair.1.drop_first())
    }
}

/// Scanning yields one literal block more than markers, and every marker
/// lies in `1..=max`.
pub proof fn lemma_scan_markers(s: Seq<char>, max: u8)
    ensures
        scan_markers(s, max).1.len() == scan_markers(s, max).0.len() + 1,
        forall|i: int|
            0 <= i < scan_markers(s, max).0.len() ==> 1 <= #[trigger] scan_markers(s, max).0[i]
                <= max,
    decreases s.len(),
{
    if s.len() == 0 {
    } else if s[0] == '#' && best_marker(s.drop_first(), max as nat) is Some {
        let k = best_marker(s.drop_first(), max as nat).unwrap();
        lemma_best_marker(s.drop_first(), max as nat);
        let rest = s.subrange(1 + decimal_digits(k).len() as int, s.len() as int);
        lemma_scan_markers(rest, max);
    } else {
        lemma_scan_markers(s.drop_first(), max);
    }
}

/// The decimal character of a single digit value.
fn digit_char(d: u8) -> (c: char)
    requires
        d < 10,
    ensures
        c == decimal_digit(d as nat),
{
    if d == 0 {
        '0'
    } else if d == 1 {
        '1'
    } else if d == 2 {
        '2'
    } else if d == 3 {
        '3'
    } else if d == 4 {
        '4'
    } else if d == 5 {
        '5'
    } else if d == 6 {
        '6'
    } else if d == 7 {
        '7'
    } else if d == 8 {
        '8'
    } else {
        '9'
    }
}

/// Appends the decimal digit string of `n` to `out`.
fn push_decimal(n: u8, out: &mut Vec<char>)
    ensures
        final(out)@ == old(out)@ + decimal_digits(n as nat),
    decreases n,
{
    if n < 10 {
        out.push(digit_char(n));
        assert(out@ =~= old(out)@ + decimal_digits(n as nat));
    } else {
        proof {
            assert(n / 10 < n && n % 10 < 10) by (nonlinear_arith)
                requires
                    n >= 10,
            ;
        }
        push_decimal(n / 10, out);
        out.push(digit_char(n % 10));
        assert(out@ =~= old(out)@ + decimal_digits(n as nat));
    }
}

/// The decimal digit string of `n` as a character vector.
fn decimal_of(n: u8) -> (d: Vec<char>)
    ensures
        d@ == decimal_digits(n as nat),
{
    let mut d: Vec<char> = Vec::new();
    push_decimal(n, &mut d);
    assert(d@ =~= decimal_digits(n as nat));
    d
}

/// Whether the characters of `digits` occur in `s` at offset `at`.
fn chars_at(s: &str, s_len: usize, at: usize, digits: &Vec<char>) -> (b: bool)
    requires
        s_len == s@.len(),
        at <= s_len,
    ensures
        b <==> occurs_at(s@, digits@, at as int),
{
    let d_len = digits.len();
    if d_len > s_len - at {
        return false;
    }
    let mut j: usize = 0;
    while j < d_len
        invariant
            0 <= j <= d_len,
            d_len == digits@.len(),
            s_len == s@.len(),
            at + d_len <= s_len,
            forall|k: int| 0 <= k < j ==> s@[at + k] == digits@[k],
        decreases d_len - j,
    {
        if s.get_char(at + j) != digits[j] {
            assert(!occurs_at(s@, digits@, at as int)) by {
                if occurs_at(s@, digits@, at as int) {
                    assert(s@.subrange(at as int, at + digits@.len())[j as int] == s@[at + j]);
                }
            }
            return false;
        }
        j += 1;
    }
    assert(s@.subrange(at as int, at + digits@.len()) =~= digits@);
    true
}

/// The largest index in `1..=max` whose digit string is a prefix of `s`,
/// trying candidates from `max` downward.
fn best_marker_in(s: &str, max: u8) -> (r: Option<u8>)
    ensures
        match r {
            Some(k) => best_marker(s@, max as nat) == Some(k as nat),
            None => best_marker(s@, max as nat) is None,
        },
{
    let s_len = s.unicode_len();
    let mut k = max;
    while k > 0
        invariant
            0 <= k <= max,
            s_len == s@.len(),
            best_marker(s@, max as nat) == best_marker(s@, k as nat),
        decreases k,
    {
        let digits = decimal_of(k);
        if chars_at(s, s_len, 0, &digits) {
            return Some(k);
        }
        k -= 1;
    }
    None
}

/// Error from `substitute`: a marker's index exceeds the number of
/// fragments supplied.
#[derive(Debug, PartialEq, Eq, Clone, Copy)]
pub enum SubstituteError {
    FragmentIndexOutOfRange,
}

/// The filename text after the first literal block: each marker's fragment
/// followed by the literal block after that marker.
pub open spec fn subst_tail(ms: Seq<u8>, bs: Seq<Seq<char>>, fs: Seq<Seq<char>>) -> Seq<char>
    recommends
        bs.len() == ms.len(),
        forall|i: int| 0 <= i < ms.len() ==> 1 <= #[trigger] ms[i] <= fs.len(),
    decreases ms.len(),
{
    if ms.len() == 0 {
        Seq::empty()
    } else {
        fs[ms[0] as int - 1] + bs[0] + subst_tail(ms.drop_first(), bs.drop_first(), fs)
    }
}

/// The full path that substituting the fragments `fs` into a template
/// produces: the directory prefix, the first literal block, then each
/// fragment followed by its trailing literal block.
pub open spec fn substituted(
    directory: Seq<char>,
    ms: Seq<u8>,
    bs: Seq<Seq<char>>,
    fs: Seq<Seq<char>>,
) -> Seq<char>
    recommends
        bs.len() == ms.len() + 1,
{
    directory + bs[0] + subst_tail(ms, bs.drop_first(), fs)
}

/// A compiled destination path template: a directory prefix kept verbatim
/// (markers inside it are never substituted), and a filename made of
/// literal blocks with numbered markers between them.
#[derive(Debug, PartialEq, Eq, Clone)]
pub struct DestinationPathTemplate {
    /// Directory holding a destination file, up to and including the last `/`.
    pub directory: String,
    /// Marker indices in order; marker `k` is replaced by fragment `k - 1`.
    pub markers: Vec<u8>,
    /// Literal text around the markers: one block more than there are markers.
    pub literal_blocks: Vec<String>,
}

impl DestinationPathTemplate {
    /// One more literal block than markers, and every marker is positive.
    pub open spec fn wf(&self) -> bool {
        &&& self.literal_blocks@.len() == self.markers@.len() + 1
        &&& forall|i: int| 0 <= i < self.markers@.len() ==> #[trigger] self.markers@[i] >= 1
    }

    /// Compiles a template. Markers are recognized only in the filename
    /// part; the directory part, up to and including the last `/`, is kept
    /// verbatim. At each `#`, the largest index in `1..=max_marker_index`
    /// whose digit string follows the `#` wins; a `#` followed by no such
    /// digit string is ordinary literal text. This never fails.
    pub fn compile(path_pattern: &str, max_marker_index: u8) -> (r: Self)
        ensures
            r.directory@ == path_pattern@.subrange(0, dir_cut(path_pattern@)),
            r.markers@ == scan_markers(
                path_pattern@.subrange(dir_cut(path_pattern@), path_pattern@.len() as int),
                max_marker_index,
            ).0,
            r.literal_blocks.deep_view() == scan_markers(
                path_pattern@.subrange(dir_cut(path_pattern@), path_pattern@.len() as int),
                max_marker_index,
            ).1,
            r.wf(),
    {
        let total = path_pattern.unicode_len();
        let cut = dir_cut_index(path_pattern);
        let directory = String::from_str(path_pattern.substring_char(0, cut));
        let filename = path_pattern.substring_char(cut, total);
        let f_len = filename.unicode_len();
        let mut markers: Vec<u8> = Vec::new();
        let mut blocks: Vec<String> = Vec::new();
        let mut current: String = String::new();
        let mut i: usize = 0;
        proof {
            assert(filename@.subrange(0, f_len as int) =~= filename@);
            lemma_scan_markers(filename@, max_marker_index);
            let pair = scan_markers(filename@, max_marker_index);
            assert(markers@ + pair.0 =~= pair.0);
            assert(blocks.deep_view() + (seq![current@ + pair.1[0]] + pair.1.drop_first())
                =~~= pair.1);
        }
        while i < f_len
            invariant
                0 <= i <= f_len,
                f_len == filename@.len(),
                markers@.len() == blocks.deep_view().len(),
                forall|j: int| 0 <= j < markers@.len() ==> 1 <= #[trigger] markers@[j]
                    <= max_marker_index,
                ({
                    let pair = scan_markers(
                        filename@.subrange(i as int, f_len as int),
                        max_marker_index,
                    );
                    let whole = scan_markers(filename@, max_marker_index);
                    pair.1.len() >= 1 && whole.0 == markers@ + pair.0 && whole.1
                        == blocks.deep_view() + (seq![current@ + pair.1[0]]
                        + pair.1.drop_first())
                }),
            decreases f_len - i,
        {
            let ghost sub_i = filename@.subrange(i as int, f_len as int);
            let ghost sub_i1 = filename@.subrange(i + 1, f_len as int);
            proof {
                assert(sub_i[0] == filename@[i as int]);
                assert(sub_i.drop_first() =~= sub_i1);
            }
            let c = filename.get_char(i);
            let marker: Option<u8> = if c == '#' {
                let rem = filename.substring_char(i + 1, f_len);
                best_marker_in(rem, max_marker_index)
            } else {
                None
            };
            match marker {
                Some(k) => {
                    let digits = decimal_of(k);
                    let dl = digits.len();
                    proof {
                        lemma_best_marker(sub_i1, max_marker_index as nat);
                        assert(occurs_at(sub_i1, decimal_digits(k as nat), 0));
                    }
                    let ghost prev_markers = markers@;
                    let ghost prev_blocks = blocks.deep_view();
                    let ghost prev_current = current@;
                    blocks.push(current);
                    current = String::new();
                    markers.push(k);
                    proof {
                        let pair = scan_markers(sub_i, max_marker_index);
                        let rest = sub_i.subrange(
                            1 + decimal_digits(k as nat).len() as int,
                            sub_i.len() as int,
                        );
                        assert(rest =~= filename@.subrange(i + 1 + dl, f_len as int));
                        let pair1 = scan_markers(rest, max_marker_index);
                        lemma_scan_markers(rest, max_marker_index);
                        assert(pair.0 =~= seq![k] + pair1.0);
                        assert(pair.1 =~~= seq![Seq::<char>::empty()] + pair1.1);
                        assert(markers@ =~= prev_markers.push(k));
                        assert(blocks.deep_view() =~~= prev_blocks.push(prev_current));
                        assert(prev_current + pair.1[0] =~= prev_current);
                        assert((prev_markers + pair.0) =~= (markers@ + pair1.0));
                        assert((prev_blocks + (seq![prev_current + pair.1[0]]
                            + pair.1.drop_first())) =~~= (blocks.deep_view() + (seq![
                            current@ + pair1.1[0],
                        ] + pair1.1.drop_first())));
                    }
                    i = i + 1 + dl;
                },
                None => {
                    let one = filename.substring_char(i, i + 1);
                    let ghost prev_current = current@;
                    current.append(one);
                    proof {
                        let pair = scan_markers(sub_i, max_marker_index);
                        let pair1 = scan_markers(sub_i1, max_marker_index);
                        lemma_scan_markers(sub_i1, max_marker_index);
                        assert(one@ =~= seq![filename@[i as int]]);
                        assert(pair.0 =~= pair1.0);
                        assert(pair.1 =~~= seq![seq![sub_i[0]] + pair1.1[0]]
                            + pair1.1.drop_first());
                        assert(current@ =~= prev_current + seq![sub_i[0]]);
                        assert(current@ + pair1.1[0] =~= prev_current + pair.1[0]);
                        assert((blocks.deep_view() + (seq![prev_current + pair.1[0]]
                            + pair.1.drop_first())) =~~= (blocks.deep_view() + (seq![
                            current@ + pair1.1[0],
                        ] + pair1.1.drop_first())));
                    }
                    i += 1;
                },
            }
        }
        let ghost prev_blocks = blocks.deep_view();
        let ghost prev_current = current@;
        let ghost pair = scan_markers(filename@.subrange(i as int, f_len as int), max_marker_index);
        proof {
            assert(filename@.subrange(i as int, f_len as int) =~= Seq::<char>::empty());
            assert(pair.1 =~~= seq![Seq::<char>::empty()]);
            assert(prev_current + pair.1[0] =~= prev_current);
        }
        blocks.push(current);
        let r = DestinationPathTemplate { directory, markers, literal_blocks: blocks };
        proof {
            assert(r.literal_blocks.deep_view() =~~= prev_blocks.push(prev_current));
            assert((prev_blocks + (seq![prev_current + pair.1[0]] + pair.1.drop_first()))
                =~~= prev_blocks.push(prev_current));
            assert(markers@ + pair.0 =~= markers@);
        }
        r
    }

    /// Substitutes `fragments_values` for the markers: `#1` is replaced by
    /// `fragments_values[0]`, and so on, between the literal blocks, and the
    /// directory prefix is kept in front. Fails when some marker's index
    /// exceeds the number of fragments supplied; nothing is ever silently
    /// padded or truncated.
    pub fn substitute(&self, fragments_values: &Vec<String>) -> (r: Result<
        String,
        SubstituteError,
    >)
        requires
            self.wf(),
        ensures
            match r {
                Ok(out) => (forall|i: int|
                    0 <= i < self.markers@.len() ==> #[trigger] self.markers@[i]
                        <= fragments_values@.len()) && out@ == substituted(
                    self.directory@,
                    self.markers@,
                    self.literal_blocks.deep_view(),
                    fragments_values.deep_view(),
                ),
                Err(e) => (exists|i: int|
                    0 <= i < self.markers@.len() && #[trigger] self.markers@[i]
                        > fragments_values@.len()) && e
                    == SubstituteError::FragmentIndexOutOfRange,
            },
    {
        let ghost ms = self.markers@;
        let ghost bs = self.literal_blocks.deep_view();
        let ghost fs = fragments_values.deep_view();
        let mut j: usize = 0;
        while j < self.markers.len()
            invariant
                0 <= j <= ms.len(),
                ms == self.markers@,
                forall|i: int| 0 <= i < j ==> #[trigger] ms[i] <= fragments_values@.len(),
            decreases ms.len() - j,
        {
            if self.markers[j] as usize > fragments_values.len() {
                return Err(SubstituteError::FragmentIndexOutOfRange);
            }
            j += 1;
        }
        let mut out = self.directory.clone();
        out.append(self.literal_blocks[0].as_str());
        proof {
            assert(ms.subrange(0, ms.len() as int) =~= ms);
            assert(bs.subrange(1, bs.len() as int) =~~= bs.drop_first());
            assert(out@ =~= self.directory@ + bs[0]);
        }
        let mut j: usize = 0;
        while j < self.markers.len()
            invariant
                0 <= j <= ms.len(),
                ms == self.markers@,
                bs == self.literal_blocks.deep_view(),
                fs == fragments_values.deep_view(),
                bs.len() == ms.len() + 1,
                forall|i: int| 0 <= i < ms.len() ==> 1 <= #[trigger] ms[i]
                    <= fragments_values@.len(),
                out@ + subst_tail(
                    ms.subrange(j as int, ms.len() as int),
                    bs.subrange(j + 1, bs.len() as int),
                    fs,
                ) == substituted(self.directory@, ms, bs, fs),
            decreases ms.len() - j,
        {
            let m = self.markers[j];
            let frag = fragments_values[(m - 1) as usize].as_str();
            let ghost prev_out = out@;
            out.append(frag);
            out.append(self.literal_blocks[j + 1].as_str());
            proof {
                let ms_j = ms.subrange(j as int, ms.len() as int);
                let bs_j = bs.subrange(j + 1, bs.len() as int);
                let ms_j1 = ms.subrange(j + 1, ms.len() as int);
                let bs_j1 = bs.subrange(j + 2, bs.len() as int);
                assert(ms_j.drop_first() =~= ms_j1);
                assert(bs_j.drop_first() =~~= bs_j1);
                assert(ms_j[0] == ms[j as int]);
                assert(bs_j[0] == bs[j + 1]);
                assert(frag@ == fs[m as int - 1]);
                assert(self.literal_blocks@[j + 1]@ == bs[j + 1]);
                assert(out@ =~= (prev_out + fs[m as int - 1]) + bs[j + 1]);
                assert((prev_out + (fs[ms_j[0] as int - 1] + bs_j[0] + subst_tail(
                    ms_j1,
                    bs_j1,
                    fs,
                ))) =~= (((prev_out + fs[m as int - 1]) + bs[j + 1]) + subst_tail(
                    ms_j1,
                    bs_j1,
                    fs,
                )));
            }
            j += 1;
        }
        proof {
            assert(subst_tail(
                ms.subrange(j as int, ms.len() as int),
                bs.subrange(j + 1, bs.len() as int),
                fs,
            ) =~= Seq::<char>::empty());
            assert(out@ + Seq::<char>::empty() =~= out@);
        }
        Ok(out)
    }
}

} // verus!
