//! Section layer: a record is a sequence of sections, each a key marker line
//! (`%KEY%`), one value per line, closed by a blank line.
use vstd::prelude::*;
use vstd::string::StrSliceExecFns;
use vstd::string::StringExecFns;
use crate::lines::{line_ok, join_lines, split_lines, line_len, lemma_join_lines_append, lemma_join_one};

verus! {

/// One section of a record, as executable data.
#[derive(Clone, Debug, PartialEq, Eq)]
pub struct Section {
    pub key: String,
    pub values: Vec<String>,
}

/// Mathematical form of a section.
#[verifier::ext_equal]
pub struct SectionView {
    pub key: Seq<char>,
    pub values: Seq<Seq<char>>,
}

impl View for Section {
    type V = SectionView;

    open spec fn view(&self) -> SectionView {
        SectionView { key: self.key@, values: self.values.deep_view() }
    }
}

impl DeepView for Section {
    type V = SectionView;

    open spec fn deep_view(&self) -> SectionView {
        self@
    }
}

/// A section the codec can emit and recover: a named key and one nonempty,
/// newline-free line per value.
pub open spec fn wf_section(s: SectionView) -> bool {
    &&& s.key.len() >= 1
    &&& line_ok(s.key)
    &&& forall|i: int| 0 <= i < s.values.len() ==> wf_value(#[trigger] s.values[i])
}

/// A value line: nonempty and newline-free.
pub open spec fn wf_value(v: Seq<char>) -> bool {
    v.len() >= 1 && line_ok(v)
}

pub open spec fn marker(key: Seq<char>) -> Seq<char> {
    seq!['%'] + key + seq!['%']
}

pub open spec fn is_marker(l: Seq<char>) -> bool {
    l.len() >= 3 && l[0] == '%' && l[l.len() - 1] == '%'
}

pub open spec fn marker_key(l: Seq<char>) -> Seq<char> {
    l.subrange(1, l.len() - 1)
}

/// The lines of one section: marker, values, blank terminator.
pub open spec fn section_lines(s: SectionView) -> Seq<Seq<char>> {
    seq![marker(s.key)] + s.values + seq![Seq::<char>::empty()]
}

/// The lines of a whole record.
pub open spec fn flatten_sections(ss: Seq<SectionView>) -> Seq<Seq<char>>
    decreases ss.len(),
{
    if ss.len() == 0 {
        Seq::empty()
    } else {
        section_lines(ss[0]) + flatten_sections(ss.drop_first())
    }
}

pub proof fn lemma_flatten_append(a: Seq<SectionView>, b: Seq<SectionView>)
    ensures
        flatten_sections(a + b) == flatten_sections(a) + flatten_sections(b),
    decreases a.len(),
{
    if a.len() == 0 {
        assert(a + b =~= b);
        assert(flatten_sections(a) + flatten_sections(b) =~= flatten_sections(b));
    } else {
        lemma_flatten_append(a.drop_first(), b);
        let ab = a + b;
        assert(ab.len() > 0);
        assert(flatten_sections(ab) == section_lines(ab[0]) + flatten_sections(ab.drop_first()));
        assert(ab.drop_first() =~= a.drop_first() + b);
        assert(ab[0] == a[0]);
        assert(flatten_sections(ab)
            == section_lines(a[0]) + (flatten_sections(a.drop_first()) + flatten_sections(b)));
        assert(section_lines(a[0]) + (flatten_sections(a.drop_first()) + flatten_sections(b))
            =~= (section_lines(a[0]) + flatten_sections(a.drop_first())) + flatten_sections(b));
    }
}

pub proof fn lemma_flatten_one(s: SectionView)
    ensures
        flatten_sections(seq![s]) == section_lines(s),
{
    assert(seq![s].len() == 1);
    assert(seq![s][0] == s);
    assert(seq![s].drop_first() =~= Seq::<SectionView>::empty());
    assert(flatten_sections(Seq::<SectionView>::empty()) == Seq::<Seq<char>>::empty());
    assert(flatten_sections(seq![s]) == section_lines(s) + Seq::<Seq<char>>::empty());
    assert(section_lines(s) + Seq::<Seq<char>>::empty() =~= section_lines(s));
}

/// Number of leading nonempty lines: the extent of the first section's body.
pub open spec fn block_len(ls: Seq<Seq<char>>) -> nat
    decreases ls.len(),
{
    if ls.len() == 0 || ls[0].len() == 0 {
        0
    } else {
        1 + block_len(ls.drop_first())
    }
}

pub proof fn lemma_block_len_le(ls: Seq<Seq<char>>)
    ensures
        block_len(ls) <= ls.len(),
    decreases ls.len(),
{
    if ls.len() > 0 && ls[0].len() > 0 {
        lemma_block_len_le(ls.drop_first());
    }
}

/// What parsing a line sequence into sections yields; `None` is a malformed
/// record: a section body whose first line is not a key marker, or a final
/// section still awaiting its blank terminator when the input ends.
pub open spec fn parse_sections(ls: Seq<Seq<char>>) -> Option<Seq<SectionView>>
    decreases ls.len(),
    via parse_sections_decreases
{
    if ls.len() == 0 {
        Some(Seq::empty())
    } else if ls[0].len() == 0 {
        parse_sections(ls.drop_first())
    } else if !is_marker(ls[0]) {
        None
    } else {
        let b = block_len(ls);
        if b == ls.len() {
            None
        } else {
            let sec = SectionView { key: marker_key(ls[0]), values: ls.subrange(1, b as int) };
            match parse_sections(ls.subrange(b as int, ls.len() as int)) {
                Some(rest) => Some(seq![sec] + rest),
                None => None,
            }
        }
    }
}

#[via_fn]
proof fn parse_sections_decreases(ls: Seq<Seq<char>>) {
    lemma_block_len_le(ls);
}

/// The first `k` lines nonempty and a blank (or the end) at `k` pin the block.
proof fn lemma_block_len_at(ls: Seq<Seq<char>>, k: int)
    requires
        0 <= k <= ls.len(),
        forall|i: int| 0 <= i < k ==> #[trigger] ls[i].len() > 0,
        k == ls.len() || ls[k].len() == 0,
    ensures
        block_len(ls) == k,
    decreases k,
{
    if k == 0 {
    } else {
        lemma_block_len_at(ls.drop_first(), k - 1);
    }
}

/// Parsing undoes flattening, for well-formed sections.
pub proof fn lemma_parse_flatten(ss: Seq<SectionView>)
    requires
        forall|i: int| 0 <= i < ss.len() ==> wf_section(#[trigger] ss[i]),
    ensures
        parse_sections(flatten_sections(ss)) == Some(ss),
    decreases ss.len(),
{
    if ss.len() == 0 {
        assert(parse_sections(flatten_sections(ss)) == Some(Seq::<SectionView>::empty()));
        assert(Seq::<SectionView>::empty() =~= ss);
    } else {
        let s0 = ss[0];
        let head = section_lines(s0);
        let tail = flatten_sections(ss.drop_first());
        let ls = head + tail;
        assert(flatten_sections(ss) == ls);
        let m = marker(s0.key);
        assert(ls[0] =~= m);
        assert(m.len() == s0.key.len() + 2);
        assert(m[0] == '%');
        assert(m[m.len() - 1] == '%');
        assert(is_marker(ls[0]));
        assert(marker_key(ls[0]) =~= s0.key);
        let nv = s0.values.len() as int;
        assert forall|i: int| 0 <= i < 1 + nv implies #[trigger] ls[i].len() > 0 by {
            if i >= 1 {
                assert(ls[i] == s0.values[i - 1]);
                assert(wf_value(s0.values[i - 1]));
            }
        }
        assert(ls[1 + nv].len() == 0);
        lemma_block_len_at(ls, 1 + nv);
        assert(block_len(ls) == 1 + nv);
        assert(ls.subrange(1, 1 + nv) =~= s0.values);
        let after = ls.subrange(1 + nv, ls.len() as int);
        assert(after =~= seq![Seq::<char>::empty()] + tail);
        assert(after[0].len() == 0);
        assert(after.drop_first() =~= tail);
        lemma_parse_flatten(ss.drop_first());
        assert(parse_sections(after) == parse_sections(tail));
        let sec = SectionView { key: marker_key(ls[0]), values: ls.subrange(1, block_len(ls) as int) };
        assert(sec =~~= s0);
        assert(parse_sections(ls) == Some(seq![sec] + ss.drop_first()));
        assert(seq![sec] + ss.drop_first() =~= ss);
    }
}

/// Every line a well-formed section produces is newline-free.
pub proof fn lemma_flatten_lines_ok(ss: Seq<SectionView>)
    requires
        forall|i: int| 0 <= i < ss.len() ==> wf_section(#[trigger] ss[i]),
    ensures
        forall|i: int| 0 <= i < flatten_sections(ss).len() ==> line_ok(#[trigger] flatten_sections(ss)[i]),
    decreases ss.len(),
{
    if ss.len() > 0 {
        let s0 = ss[0];
        let head = section_lines(s0);
        let tail = flatten_sections(ss.drop_first());
        lemma_flatten_lines_ok(ss.drop_first());
        assert forall|i: int| 0 <= i < flatten_sections(ss).len()
            implies line_ok(#[trigger] flatten_sections(ss)[i]) by {
            if i < head.len() {
                assert(flatten_sections(ss)[i] == head[i]);
                if i == 0 {
                    assert(head[0] == marker(s0.key));
                    assert(forall|j: int| 0 <= j < marker(s0.key).len()
                        ==> #[trigger] marker(s0.key)[j] != '\n');
                } else if i <= s0.values.len() {
                    assert(head[i] == s0.values[i - 1]);
                    assert(wf_value(s0.values[i - 1]));
                } else {
                    assert(head[i] =~= Seq::<char>::empty());
                }
            } else {
                assert(flatten_sections(ss)[i] == tail[i - head.len()]);
            }
        }
    }
}

/// Append the text of one section (marker line, value lines, blank line).
pub fn push_section(out: &mut String, key: &str, values: &Vec<String>)
    ensures
        final(out)@ == old(out)@ + join_lines(section_lines(
            SectionView { key: key@, values: values.deep_view() },
        )),
{
    let ghost sec = SectionView { key: key@, values: values.deep_view() };
    proof {
        reveal_strlit("%");
        reveal_strlit("%\n");
        reveal_strlit("\n");
    }
    out.append("%");
    out.append(key);
    out.append("%\n");
    proof {
        assert(out@ =~= old(out)@ + (marker(key@) + seq!['\n']));
    }
    let mut j: usize = 0;
    while j < values.len()
        invariant
            0 <= j <= values.len(),
            sec == (SectionView { key: key@, values: values.deep_view() }),
            out@ == old(out)@ + (marker(sec.key) + seq!['\n'])
                + join_lines(sec.values.subrange(0, j as int)),
        decreases values.len() - j,
    {
        proof {
            assert(sec.values.subrange(0, j as int).push(sec.values[j as int])
                =~= sec.values.subrange(0, j as int + 1));
            lemma_join_lines_append(sec.values.subrange(0, j as int), seq![sec.values[j as int]]);
            lemma_join_one(sec.values[j as int]);
            assert(sec.values.subrange(0, j as int) + seq![sec.values[j as int]]
                =~= sec.values.subrange(0, j as int + 1));
            reveal_strlit("\n");
        }
        out.append(values[j].as_str());
        out.append("\n");
        j = j + 1;
    }
    out.append("\n");
    proof {
        assert(sec.values.subrange(0, sec.values.len() as int) =~= sec.values);
        let lns = section_lines(sec);
        assert(lns =~= seq![marker(sec.key)] + (sec.values + seq![Seq::<char>::empty()]));
        lemma_join_lines_append(seq![marker(sec.key)], sec.values + seq![Seq::<char>::empty()]);
        lemma_join_lines_append(sec.values, seq![Seq::<char>::empty()]);
        lemma_join_one(marker(sec.key));
        lemma_join_one(Seq::<char>::empty());
        assert(join_lines(lns) =~= (marker(sec.key) + seq!['\n']) + join_lines(sec.values) + seq!['\n']);
        assert(out@ =~= old(out)@ + join_lines(lns));
    }
}

/// Append a section with a single value line.
pub fn push_single(out: &mut String, key: &str, value: &str)
    ensures
        final(out)@ == old(out)@ + join_lines(section_lines(
            SectionView { key: key@, values: seq![value@] },
        )),
{
    let ghost sec = SectionView { key: key@, values: seq![value@] };
    proof {
        reveal_strlit("%");
        reveal_strlit("%\n");
        reveal_strlit("\n");
    }
    out.append("%");
    out.append(key);
    out.append("%\n");
    out.append(value);
    out.append("\n\n");
    proof {
        reveal_strlit("\n\n");
        let lns = section_lines(sec);
        assert(lns =~= seq![marker(sec.key)] + (seq![value@] + seq![Seq::<char>::empty()]));
        lemma_join_lines_append(seq![marker(sec.key)], seq![value@] + seq![Seq::<char>::empty()]);
        lemma_join_lines_append(seq![value@], seq![Seq::<char>::empty()]);
        lemma_join_one(marker(sec.key));
        lemma_join_one(value@);
        lemma_join_one(Seq::<char>::empty());
        assert(join_lines(lns) =~= (marker(sec.key) + seq!['\n']) + (value@ + seq!['\n']) + seq!['\n']);
        assert(out@ =~= old(out)@ + join_lines(lns));
    }
}

/// Parse record lines into sections; `None` exactly where `parse_sections`
/// has no value.
pub fn parse_record_lines(lines: &Vec<String>) -> (r: Option<Vec<Section>>)
    ensures
        match r {
            Some(v) => parse_sections(lines.deep_view()) == Some(v.deep_view()),
            None => parse_sections(lines.deep_view()) is None,
        },
{
    let ghost ld = lines.deep_view();
    let n = lines.len();
    let mut out: Vec<Section> = Vec::new();
    let mut i: usize = 0;
    proof {
        assert(ld.subrange(0, n as int) =~= ld);
        assert(out.deep_view() =~= Seq::<SectionView>::empty());
    }
    while i < n
        invariant
            0 <= i <= n,
            n == ld.len(),
            ld == lines.deep_view(),
            parse_sections(ld) == match parse_sections(ld.subrange(i as int, n as int)) {
                Some(rest) => Some(out.deep_view() + rest),
                None => None::<Seq<SectionView>>,
            },
        decreases n - i,
    {
        let ghost suffix = ld.subrange(i as int, n as int);
        let li = &lines[i];
        let ll = li.as_str().unicode_len();
        if ll == 0 {
            proof {
                assert(suffix[0] == ld[i as int]);
                assert(suffix.drop_first() =~= ld.subrange(i as int + 1, n as int));
            }
            i = i + 1;
            continue;
        }
        // marker check
        let first = li.as_str().get_char(0);
        let last = li.as_str().get_char(ll - 1);
        if ll < 3 || first != '%' || last != '%' {
            proof {
                assert(suffix[0] == ld[i as int]);
                assert(!is_marker(suffix[0]));
            }
            return None;
        }
        let key = li.as_str().substring_char(1, ll - 1).to_owned();
        proof {
            assert(suffix[0] == ld[i as int]);
            assert(is_marker(suffix[0]));
            assert(key@ =~= marker_key(suffix[0]));
        }
        // collect the value lines
        let mut j: usize = i + 1;
        let mut values: Vec<String> = Vec::new();
        proof {
            assert(values.deep_view() =~= Seq::<Seq<char>>::empty());
        }
        while j < n && lines[j].as_str().unicode_len() > 0
            invariant
                i < j <= n,
                n == ld.len(),
                ld == lines.deep_view(),
                forall|k: int| i < k < j ==> #[trigger] ld[k].len() > 0,
                values.deep_view() =~= ld.subrange(i as int + 1, j as int),
            decreases n - j,
        {
            let ghost old_values = values.deep_view();
            values.push(lines[j].clone());
            proof {
                assert(values.deep_view() =~= old_values.push(ld[j as int]));
                assert(ld.subrange(i as int + 1, j as int).push(ld[j as int])
                    =~= ld.subrange(i as int + 1, j as int + 1));
            }
            j = j + 1;
        }
        proof {
            assert(ld[i as int].len() > 0);
            assert forall|k: int| 0 <= k < (j - i) implies #[trigger] suffix[k].len() > 0 by {
                assert(suffix[k] == ld[i + k]);
            }
            if j < n {
                assert(suffix[j - i] == ld[j as int]);
                assert(suffix[j - i].len() == 0);
            }
            lemma_block_len_at(suffix, j - i);
            assert(block_len(suffix) == j - i);
            assert(suffix.subrange(1, (j - i) as int) =~= ld.subrange(i as int + 1, j as int));
            assert(suffix.subrange((j - i) as int, suffix.len() as int)
                =~= ld.subrange(j as int, n as int));
        }
        if j == n {
            // end of input reached while still awaiting the blank terminator
            proof {
                assert(block_len(suffix) == suffix.len());
                assert(parse_sections(suffix) is None);
            }
            return None;
        }
        let sec = Section { key, values };
        let ghost old_out = out.deep_view();
        out.push(sec);
        proof {
            let sv = SectionView { key: marker_key(suffix[0]), values: suffix.subrange(1, block_len(suffix) as int) };
            assert(out.deep_view() =~= old_out.push(sv));
            match parse_sections(ld.subrange(j as int, n as int)) {
                Some(rest) => {
                    assert(parse_sections(suffix) == Some(seq![sv] + rest));
                    assert(old_out + (seq![sv] + rest) =~= out.deep_view() + rest);
                },
                None => {
                    assert(parse_sections(suffix) is None);
                },
            }
        }
        i = j;
    }
    proof {
        assert(ld.subrange(n as int, n as int) =~= Seq::<Seq<char>>::empty());
        assert(parse_sections(Seq::<Seq<char>>::empty()) == Some(Seq::<SectionView>::empty()));
        assert(out.deep_view() + Seq::<SectionView>::empty() =~= out.deep_view());
    }
    Some(out)
}

} // verus!
