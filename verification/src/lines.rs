//! Line-oriented text layer: records are sequences of newline-terminated
//! lines; splitting undoes joining for lines that hold no newline.
use vstd::prelude::*;
use vstd::string::StrSliceExecFns;

verus! {

/// A line may not contain the separator itself.
pub open spec fn line_ok(l: Seq<char>) -> bool {
    forall|i: int| 0 <= i < l.len() ==> #[trigger] l[i] != '\n'
}

/// Text of a line sequence: every line, each followed by one newline.
pub open spec fn join_lines(ls: Seq<Seq<char>>) -> Seq<char>
    decreases ls.len(),
{
    if ls.len() == 0 {
        Seq::empty()
    } else {
        ls[0] + seq!['\n'] + join_lines(ls.drop_first())
    }
}

/// Length of the first line of `s` (up to the first newline or the end).
pub open spec fn line_len(s: Seq<char>) -> nat
    decreases s.len(),
{
    if s.len() == 0 {
        0
    } else if s[0] == '\n' {
        0
    } else {
        1 + line_len(s.drop_first())
    }
}

pub proof fn lemma_line_len_le(s: Seq<char>)
    ensures
        line_len(s) <= s.len(),
    decreases s.len(),
{
    if s.len() > 0 && s[0] != '\n' {
        lemma_line_len_le(s.drop_first());
    }
}

/// Lines of a text: split at each newline; a final unterminated line counts.
pub open spec fn split_lines(s: Seq<char>) -> Seq<Seq<char>>
    decreases s.len(),
    via split_lines_decreases
{
    if s.len() == 0 {
        Seq::empty()
    } else {
        let l = line_len(s);
        if l == s.len() {
            seq![s]
        } else {
            seq![s.subrange(0, l as int)] + split_lines(s.subrange(l as int + 1, s.len() as int))
        }
    }
}

#[via_fn]
proof fn split_lines_decreases(s: Seq<char>) {
    lemma_line_len_le(s);
}

pub proof fn lemma_join_lines_append(a: Seq<Seq<char>>, b: Seq<Seq<char>>)
    ensures
        join_lines(a + b) == join_lines(a) + join_lines(b),
    decreases a.len(),
{
    if a.len() == 0 {
        assert(a + b =~= b);
        assert(join_lines(a) + join_lines(b) =~= join_lines(b));
    } else {
        lemma_join_lines_append(a.drop_first(), b);
        assert((a + b).drop_first() =~= a.drop_first() + b);
        assert(join_lines(a + b) =~= a[0] + seq!['\n'] + (join_lines(a.drop_first()) + join_lines(b)));
        assert(join_lines(a) + join_lines(b) =~= (a[0] + seq!['\n'] + join_lines(a.drop_first())) + join_lines(b));
    }
}

pub proof fn lemma_join_one(l: Seq<char>)
    ensures
        join_lines(seq![l]) == l + seq!['\n'],
    decreases l.len(),
{
    assert(seq![l].drop_first() =~= Seq::<Seq<char>>::empty());
    assert(join_lines(Seq::<Seq<char>>::empty()) == Seq::<char>::empty());
    assert(join_lines(seq![l]) == l + seq!['\n'] + Seq::<char>::empty());
    assert(l + seq!['\n'] + Seq::<char>::empty() =~= l + seq!['\n']);
}

/// The first line of `a ++ '\n' ++ b` is exactly `a`, when `a` has no newline.
proof fn lemma_line_len_concat(a: Seq<char>, b: Seq<char>)
    requires
        line_ok(a),
    ensures
        line_len(a + seq!['\n'] + b) == a.len(),
    decreases a.len(),
{
    let s = a + seq!['\n'] + b;
    if a.len() == 0 {
        assert(s[0] == '\n');
    } else {
        lemma_line_len_concat(a.drop_first(), b);
        assert(s[0] == a[0]);
        assert(s.drop_first() =~= a.drop_first() + seq!['\n'] + b);
    }
}

/// Splitting undoes joining, for lines free of newlines.
pub proof fn lemma_split_join(ls: Seq<Seq<char>>)
    requires
        forall|i: int| 0 <= i < ls.len() ==> line_ok(#[trigger] ls[i]),
    ensures
        split_lines(join_lines(ls)) == ls,
    decreases ls.len(),
{
    if ls.len() == 0 {
        assert(split_lines(join_lines(ls)) =~= ls);
    } else {
        let rest = join_lines(ls.drop_first());
        let s = ls[0] + seq!['\n'] + rest;
        assert(join_lines(ls) == s);
        lemma_line_len_concat(ls[0], rest);
        let l = line_len(s);
        assert(l == ls[0].len());
        assert(l < s.len());
        assert(s.subrange(0, l as int) =~= ls[0]);
        assert(s.subrange(l as int + 1, s.len() as int) =~= rest);
        lemma_split_join(ls.drop_first());
        assert(split_lines(s) =~= seq![ls[0]] + ls.drop_first());
        assert(seq![ls[0]] + ls.drop_first() =~= ls);
    }
}

/// Character-for-character string equality.
pub fn str_eq(a: &str, b: &str) -> (r: bool)
    ensures
        r == (a@ == b@),
{
    let na = a.unicode_len();
    let nb = b.unicode_len();
    if na != nb {
        return false;
    }
    let mut i: usize = 0;
    while i < na
        invariant
            0 <= i <= na,
            na == a@.len(),
            na == b@.len(),
            forall|j: int| 0 <= j < i ==> a@[j] == b@[j],
        decreases na - i,
    {
        if a.get_char(i) != b.get_char(i) {
            return false;
        }
        i = i + 1;
    }
    proof {
        assert(a@ =~= b@);
    }
    true
}

/// Split text into its lines.
pub fn split_text(s: &str) -> (r: Vec<String>)
    ensures
        r.deep_view() == split_lines(s@),
{
    let n = s.unicode_len();
    let mut out: Vec<String> = Vec::new();
    let mut start: usize = 0;
    let mut i: usize = 0;
    proof {
        assert(out.deep_view() =~= Seq::<Seq<char>>::empty());
        assert(s@.subrange(0, n as int) =~= s@);
        assert(out.deep_view() + split_lines(s@) =~= split_lines(s@));
    }
    while i < n
        invariant
            0 <= start <= i <= n,
            n == s@.len(),
            forall|j: int| start <= j < i ==> #[trigger] s@[j] != '\n',
            split_lines(s@) == out.deep_view() + split_lines(s@.subrange(start as int, n as int)),
        decreases n - i,
    {
        if s.get_char(i) == '\n' {
            let line = s.substring_char(start, i).to_owned();
            proof {
                let rest = s@.subrange(start as int, n as int);
                let cur = s@.subrange(start as int, i as int);
                assert(line_ok(cur));
                let after = s@.subrange(i as int + 1, n as int);
                assert(rest =~= cur + seq!['\n'] + after);
                lemma_line_len_concat(cur, after);
                assert(line_len(rest) == cur.len());
                assert(line_len(rest) < rest.len());
                assert(rest.subrange(0, cur.len() as int) =~= cur);
                assert(rest.subrange(cur.len() as int + 1, rest.len() as int) =~= after);
                assert(split_lines(rest) == seq![cur] + split_lines(after));
                assert((out.deep_view() + seq![cur]) + split_lines(after)
                    =~= out.deep_view() + (seq![cur] + split_lines(after)));
            }
            let ghost old_out = out.deep_view();
            out.push(line);
            proof {
                assert(out.deep_view() =~= old_out + seq![s@.subrange(start as int, i as int)]);
            }
            start = i + 1;
        }
        i = i + 1;
    }
    if start < n {
        let line = s.substring_char(start, n).to_owned();
        proof {
            let rest = s@.subrange(start as int, n as int);
            assert(line_ok(rest));
            lemma_line_len_is_len(rest);
            assert(split_lines(rest) =~= seq![rest]);
            assert((out.deep_view() + seq![rest]) =~= out.deep_view() + seq![rest]);
        }
        let ghost old_out = out.deep_view();
        out.push(line);
        proof {
            assert(out.deep_view() =~= old_out + seq![s@.subrange(start as int, n as int)]);
        }
    } else {
        proof {
            assert(s@.subrange(start as int, n as int) =~= Seq::<char>::empty());
            assert(out.deep_view() + split_lines(Seq::<char>::empty()) =~= out.deep_view());
        }
    }
    out
}

/// A newline-free text is a single line.
proof fn lemma_line_len_is_len(s: Seq<char>)
    requires
        line_ok(s),
    ensures
        line_len(s) == s.len(),
    decreases s.len(),
{
    if s.len() > 0 {
        assert(s[0] != '\n');
        lemma_line_len_is_len(s.drop_first());
    }
}

} // verus!
