//! Parsing a command line into a pipeline: stages separated by `|`, each
//! stage a whitespace-separated argv (the program name first), and a final
//! lone `&` token asking for background execution. A stage with no tokens —
//! a leading, trailing or doubled pipe, or a line of nothing but blanks — is
//! a syntax error.

use vstd::prelude::*;

verus! {

/// A parsed command line: one argv per stage, in pipe order, and whether the
/// line asked for background execution. Every argv is nonempty; its first
/// element is the program name.
pub struct Pipeline {
    pub stages: Vec<Vec<String>>,
    pub background: bool,
}

/// Mathematical image of a `Pipeline`.
#[verifier::ext_equal]
pub ghost struct PipelineModel {
    pub stages: Seq<Seq<Seq<char>>>,
    pub background: bool,
}

/// View of one argv as a sequence of character sequences.
pub open spec fn argv_view(v: Vec<String>) -> Seq<Seq<char>> {
    v@.map_values(|s: String| s@)
}

/// View of a stage list as nested character sequences.
pub open spec fn stages_view(st: Seq<Vec<String>>) -> Seq<Seq<Seq<char>>> {
    st.map_values(|v: Vec<String>| argv_view(v))
}

impl View for Pipeline {
    type V = PipelineModel;

    open spec fn view(&self) -> PipelineModel {
        PipelineModel { stages: stages_view(self.stages@), background: self.background }
    }
}

pub open spec fn is_blank(c: char) -> bool {
    c == ' ' || c == '\t'
}

/// The pieces of `s` between occurrences of the separator `sep`, in order;
/// always at least one piece, and empty pieces are kept.
pub open spec fn split_sep(s: Seq<char>, sep: char) -> Seq<Seq<char>>
    decreases s.len(),
{
    if s.len() == 0 {
        seq![Seq::<char>::empty()]
    } else if s[0] == sep {
        seq![Seq::<char>::empty()] + split_sep(s.subrange(1, s.len() as int), sep)
    } else {
        let rest = split_sep(s.subrange(1, s.len() as int), sep);
        seq![seq![s[0]] + rest[0]] + rest.subrange(1, rest.len() as int)
    }
}

/// The segments of `s` between `|` characters: the pipeline's stages before
/// tokenization (empty segments are what a syntax error is).
pub open spec fn bar_split(s: Seq<char>) -> Seq<Seq<char>> {
    split_sep(s, '|')
}

/// The whitespace-separated tokens of `s`, in order; blanks never appear in
/// a token, and empty tokens do not exist.
pub open spec fn ws_tokens(s: Seq<char>) -> Seq<Seq<char>>
    decreases s.len(),
{
    if s.len() == 0 {
        Seq::<Seq<char>>::empty()
    } else {
        let rest = ws_tokens(s.subrange(1, s.len() as int));
        if is_blank(s[0]) {
            rest
        } else if s.len() >= 2 && !is_blank(s[1]) {
            seq![seq![s[0]] + rest[0]] + rest.subrange(1, rest.len() as int)
        } else {
            seq![seq![s[0]]] + rest
        }
    }
}

/// Some stage of the split line has no tokens at all: a syntax error.
pub open spec fn has_empty_stage(stages: Seq<Seq<Seq<char>>>) -> bool {
    exists|i: int| 0 <= i < stages.len() && (#[trigger] stages[i]).len() == 0
}

/// What a command line means: tokenize every pipe-separated segment; a lone
/// `&` as the very last token marks background execution and is dropped;
/// the result is the stages in order, or nothing when some stage is empty.
pub open spec fn parse_spec(s: Seq<char>) -> Option<(Seq<Seq<Seq<char>>>, bool)> {
    let raw = bar_split(s).map_values(|seg: Seq<char>| ws_tokens(seg));
    let bg = raw.last().len() > 0 && raw.last().last() == seq!['&'];
    let stages = if bg {
        raw.update(raw.len() - 1, raw.last().drop_last())
    } else {
        raw
    };
    if has_empty_stage(stages) {
        None
    } else {
        Some((stages, bg))
    }
}

pub proof fn lemma_split_sep_len(s: Seq<char>, sep: char)
    ensures
        split_sep(s, sep).len() >= 1,
    decreases s.len(),
{
    if s.len() > 0 {
        lemma_split_sep_len(s.subrange(1, s.len() as int), sep);
    }
}

/// If no separator occurs before position `m`, the first piece runs to `m`:
/// the whole string when `m` is its end, else up to the separator at `m`.
pub proof fn lemma_split_sep_prefix(s: Seq<char>, sep: char, m: int)
    requires
        0 <= m <= s.len(),
        forall|q: int| 0 <= q < m ==> s[q] != sep,
        m < s.len() ==> s[m] == sep,
    ensures
        m == s.len() ==> split_sep(s, sep) == seq![s],
        m < s.len() ==> split_sep(s, sep) == seq![s.subrange(0, m)]
            + split_sep(s.subrange(m + 1, s.len() as int), sep),
    decreases m,
{
    if m == 0 {
        if s.len() == 0 {
            assert(split_sep(s, sep) =~~= seq![s]);
        } else {
            assert(s[0] == sep);
            assert(s.subrange(0, 0) =~= Seq::<char>::empty());
            assert(split_sep(s, sep) =~~= seq![s.subrange(0, 0)]
                + split_sep(s.subrange(1, s.len() as int), sep));
        }
    } else {
        let tail = s.subrange(1, s.len() as int);
        assert(s[0] != sep);
        assert forall|q: int| 0 <= q < m - 1 implies tail[q] != sep by {
            assert(tail[q] == s[q + 1]);
        }
        if m - 1 < tail.len() {
            assert(tail[m - 1] == s[m]);
        }
        lemma_split_sep_prefix(tail, sep, m - 1);
        lemma_split_sep_len(tail, sep);
        let rest = split_sep(tail, sep);
        if m == s.len() {
            assert(rest == seq![tail]);
            assert(seq![s[0]] + rest[0] =~= s);
            assert(rest.subrange(1, rest.len() as int) =~= Seq::<Seq<char>>::empty());
            assert(split_sep(s, sep) =~= seq![s]);
        } else {
            assert(rest == seq![tail.subrange(0, m - 1)]
                + split_sep(tail.subrange(m, tail.len() as int), sep));
            assert(rest[0] == tail.subrange(0, m - 1));
            assert(seq![s[0]] + rest[0] =~= s.subrange(0, m));
            assert(tail.subrange(m, tail.len() as int) =~= s.subrange(m + 1, s.len() as int));
            assert(rest.subrange(1, rest.len() as int)
                =~= split_sep(s.subrange(m + 1, s.len() as int), sep));
            assert(split_sep(s, sep) =~= seq![s.subrange(0, m)]
                + split_sep(s.subrange(m + 1, s.len() as int), sep));
        }
    }
}

/// A leading blank never changes the token list.
proof fn lemma_ws_skip(s: Seq<char>)
    requires
        s.len() > 0,
        is_blank(s[0]),
    ensures
        ws_tokens(s) == ws_tokens(s.subrange(1, s.len() as int)),
{
}

proof fn lemma_ws_tokens_nonempty_head(s: Seq<char>)
    requires
        s.len() > 0,
        !is_blank(s[0]),
    ensures
        ws_tokens(s).len() >= 1,
    decreases s.len(),
{
    if s.len() >= 2 && !is_blank(s[1]) {
        lemma_ws_tokens_nonempty_head(s.subrange(1, s.len() as int));
    }
}

/// If the first `k` characters are non-blank and the run ends at `k` (a
/// blank or the end of the string), the first token is exactly that run.
proof fn lemma_ws_run(s: Seq<char>, k: int)
    requires
        0 < k <= s.len(),
        forall|q: int| 0 <= q < k ==> !is_blank(#[trigger] s[q]),
        k < s.len() ==> is_blank(s[k]),
    ensures
        ws_tokens(s) == seq![s.subrange(0, k)] + ws_tokens(s.subrange(k, s.len() as int)),
    decreases k,
{
    let tail = s.subrange(1, s.len() as int);
    let rest = ws_tokens(tail);
    if k == 1 {
        if s.len() == 1 {
            assert(s.subrange(0, 1) =~= seq![s[0]]);
            assert(s.subrange(1, 1) =~= Seq::<char>::empty());
            assert(ws_tokens(s) =~= seq![s.subrange(0, 1)]
                + ws_tokens(s.subrange(k, s.len() as int)));
        } else {
            assert(is_blank(s[1]));
            assert(s.subrange(0, 1) =~= seq![s[0]]);
            assert(s.subrange(1, s.len() as int) =~= tail);
            assert(ws_tokens(s) =~= seq![s.subrange(0, 1)]
                + ws_tokens(s.subrange(k, s.len() as int)));
        }
    } else {
        assert(!is_blank(s[1]));
        assert(tail[0] == s[1]);
        assert forall|q: int| 0 <= q < k - 1 implies !is_blank(#[trigger] tail[q]) by {
            assert(tail[q] == s[q + 1]);
        }
        if k - 1 < tail.len() {
            assert(tail[k - 1] == s[k]);
        }
        lemma_ws_run(tail, k - 1);
        lemma_ws_tokens_nonempty_head(tail);
        assert(rest == seq![tail.subrange(0, k - 1)] + ws_tokens(tail.subrange(k - 1, tail.len() as int)));
        assert(rest[0] == tail.subrange(0, k - 1));
        assert(seq![s[0]] + rest[0] =~= s.subrange(0, k));
        assert(tail.subrange(k - 1, tail.len() as int) =~= s.subrange(k, s.len() as int));
        assert(rest.subrange(1, rest.len() as int)
            =~= ws_tokens(s.subrange(k, s.len() as int)));
        assert(ws_tokens(s) =~= seq![s.subrange(0, k)]
            + ws_tokens(s.subrange(k, s.len() as int)));
    }
}

proof fn lemma_parse_spec_none(s: Seq<char>, bg: bool, stages: Seq<Seq<Seq<char>>>, k: int)
    requires
        ({
            let raw = bar_split(s).map_values(|seg: Seq<char>| ws_tokens(seg));
            bg == (raw.last().len() > 0 && raw.last().last() == seq!['&']) && stages == (
            if bg {
                raw.update(raw.len() - 1, raw.last().drop_last())
            } else {
                raw
            })
        }),
        0 <= k < stages.len(),
        stages[k].len() == 0,
    ensures
        parse_spec(s) is None,
{
    let raw = bar_split(s).map_values(|seg: Seq<char>| ws_tokens(seg));
    let st2 = if bg {
        raw.update(raw.len() - 1, raw.last().drop_last())
    } else {
        raw
    };
    assert(st2[k].len() == 0);
    assert(has_empty_stage(st2));
}

proof fn lemma_parse_spec_some(s: Seq<char>, bg: bool, stages: Seq<Seq<Seq<char>>>)
    requires
        ({
            let raw = bar_split(s).map_values(|seg: Seq<char>| ws_tokens(seg));
            bg == (raw.last().len() > 0 && raw.last().last() == seq!['&']) && stages == (
            if bg {
                raw.update(raw.len() - 1, raw.last().drop_last())
            } else {
                raw
            })
        }),
        forall|i: int| 0 <= i < stages.len() ==> (#[trigger] stages[i]).len() > 0,
    ensures
        parse_spec(s) == Some((stages, bg)),
{
    let raw = bar_split(s).map_values(|seg: Seq<char>| ws_tokens(seg));
    let st2 = if bg {
        raw.update(raw.len() - 1, raw.last().drop_last())
    } else {
        raw
    };
    assert forall|i: int| 0 <= i < st2.len() implies (#[trigger] st2[i]).len() > 0 by {
        assert(stages[i].len() > 0);
    }
    assert(!has_empty_stage(st2));
}

/// Blanks at the front of `s`.
pub open spec fn leading_blanks(s: Seq<char>) -> nat
    decreases s.len(),
{
    if s.len() == 0 || !is_blank(s[0]) {
        0
    } else {
        (1 + leading_blanks(s.subrange(1, s.len() as int))) as nat
    }
}

/// Blanks at the back of `s`.
pub open spec fn trailing_blanks(s: Seq<char>) -> nat
    decreases s.len(),
{
    if s.len() == 0 || !is_blank(s.last()) {
        0
    } else {
        (1 + trailing_blanks(s.drop_last())) as nat
    }
}

/// The line with surrounding blanks removed.
pub open spec fn trim_spec(s: Seq<char>) -> Seq<char> {
    if leading_blanks(s) == s.len() {
        Seq::<char>::empty()
    } else {
        s.subrange(leading_blanks(s) as int, s.len() - trailing_blanks(s))
    }
}

proof fn lemma_leading_blanks_at(s: Seq<char>, i: int)
    requires
        0 <= i <= s.len(),
        forall|q: int| 0 <= q < i ==> is_blank(#[trigger] s[q]),
        i < s.len() ==> !is_blank(s[i]),
    ensures
        leading_blanks(s) == i,
    decreases i,
{
    if i == 0 {
    } else {
        let tail = s.subrange(1, s.len() as int);
        assert forall|q: int| 0 <= q < i - 1 implies is_blank(#[trigger] tail[q]) by {
            assert(tail[q] == s[q + 1]);
        }
        if i - 1 < tail.len() {
            assert(tail[i - 1] == s[i]);
        }
        lemma_leading_blanks_at(tail, i - 1);
    }
}

proof fn lemma_trailing_blanks_at(s: Seq<char>, j: int)
    requires
        0 <= j <= s.len(),
        forall|q: int| j <= q < s.len() ==> is_blank(#[trigger] s[q]),
        j > 0 ==> !is_blank(s[j - 1]),
    ensures
        trailing_blanks(s) == s.len() - j,
    decreases s.len() - j,
{
    if j == s.len() {
    } else {
        let head = s.drop_last();
        assert(is_blank(s.last()));
        assert forall|q: int| j <= q < head.len() implies is_blank(#[trigger] head[q]) by {
            assert(head[q] == s[q]);
        }
        if j > 0 {
            assert(head[j - 1] == s[j - 1]);
        }
        lemma_trailing_blanks_at(head, j);
    }
}

/// What the controller does with raw input: the line trimmed of surrounding
/// blanks, or nothing when only blanks remain (the prompt is shown again
/// and the worker never sees the line).
pub fn prepare_line(line: &str) -> (r: Option<String>)
    ensures
        match r {
            Some(t) => t@ == trim_spec(line@) && t@.len() > 0,
            None => trim_spec(line@).len() == 0,
        },
{
    let n = line.unicode_len();
    let mut i: usize = 0;
    while i < n && (line.get_char(i) == ' ' || line.get_char(i) == '\t')
        invariant
            i <= n,
            n == line@.len(),
            forall|q: int| 0 <= q < i ==> is_blank(#[trigger] line@[q]),
        decreases n - i,
    {
        i += 1;
    }
    if i == n {
        proof {
            lemma_leading_blanks_at(line@, i as int);
        }
        return None;
    }
    proof {
        lemma_leading_blanks_at(line@, i as int);
    }
    let mut j = n;
    while j > i && (line.get_char(j - 1) == ' ' || line.get_char(j - 1) == '\t')
        invariant
            i <= j <= n,
            n == line@.len(),
            forall|q: int| j <= q < n ==> is_blank(#[trigger] line@[q]),
        decreases j,
    {
        j -= 1;
    }
    proof {
        assert(!is_blank(line@[i as int]));
        assert(j as int > 0 ==> !is_blank(line@[j - 1]));
        lemma_trailing_blanks_at(line@, j as int);
    }
    let t = line.substring_char(i, j).to_owned();
    proof {
        assert(t@ == trim_spec(line@));
    }
    Some(t)
}

/// Split a line on `|`, keeping empty segments.
fn split_bars(line: &str) -> (r: Vec<String>)
    ensures
        r@.map_values(|t: String| t@) == bar_split(line@),
{
    let n = line.unicode_len();
    let mut out: Vec<String> = Vec::new();
    let mut i: usize = 0;
    proof {
        assert(line@.subrange(0, n as int) =~= line@);
    }
    loop
        invariant_except_break
            i <= n,
            n == line@.len(),
            bar_split(line@) == out@.map_values(|t: String| t@)
                + bar_split(line@.subrange(i as int, n as int)),
        ensures
            out@.map_values(|t: String| t@) == bar_split(line@),
        decreases n - i,
    {
        let mut j = i;
        while j < n && line.get_char(j) != '|'
            invariant
                i <= j <= n,
                n == line@.len(),
                forall|q: int| i <= q < j ==> line@[q] != '|',
            decreases n - j,
        {
            j += 1;
        }
        let seg = line.substring_char(i, j).to_owned();
        out.push(seg);
        proof {
            let rem = line@.subrange(i as int, n as int);
            assert forall|q: int| 0 <= q < j - i implies rem[q] != '|' by {
                assert(rem[q] == line@[i + q]);
            }
            if (j as int) < n as int {
                assert(rem[j - i] == line@[j as int]);
            }
            lemma_split_sep_prefix(rem, '|', j - i);
            assert(seg@ == rem.subrange(0, j - i)) by {
                assert(seg@ =~= rem.subrange(0, j - i));
            }
            if j == n {
                assert(rem.subrange(0, j - i) =~= rem);
                assert(out@.map_values(|t: String| t@) =~= bar_split(line@));
            } else {
                assert(rem.subrange(j - i + 1, rem.len() as int)
                    =~= line@.subrange(j + 1 as int, n as int));
                assert(bar_split(line@) =~= out@.map_values(|t: String| t@)
                    + bar_split(line@.subrange(j + 1 as int, n as int)));
            }
        }
        if j == n {
            break;
        }
        i = j + 1;
    }
    out
}

/// Split a segment into whitespace-separated tokens.
#[verifier::loop_isolation(false)]
fn split_ws(seg: &str) -> (r: Vec<String>)
    ensures
        r@.map_values(|t: String| t@) == ws_tokens(seg@),
{
    let n = seg.unicode_len();
    let mut out: Vec<String> = Vec::new();
    let mut i: usize = 0;
    proof {
        assert(seg@.subrange(0, n as int) =~= seg@);
    }
    while i < n
        invariant
            i <= n,
            ws_tokens(seg@) == out@.map_values(|t: String| t@)
                + ws_tokens(seg@.subrange(i as int, n as int)),
        decreases n - i,
    {
        let c = seg.get_char(i);
        if c == ' ' || c == '\t' {
            proof {
                let rem = seg@.subrange(i as int, n as int);
                lemma_ws_skip(rem);
                assert(rem.subrange(1, rem.len() as int)
                    =~= seg@.subrange(i + 1 as int, n as int));
            }
            i += 1;
        } else {
            let mut j = i + 1;
            while j < n && seg.get_char(j) != ' ' && seg.get_char(j) != '\t'
                invariant
                    i < j <= n,
                    forall|q: int| i <= q < j ==> !is_blank(#[trigger] seg@[q]),
                decreases n - j,
            {
                j += 1;
            }
            let tok = seg.substring_char(i, j).to_owned();
            out.push(tok);
            proof {
                let rem = seg@.subrange(i as int, n as int);
                assert forall|q: int| 0 <= q < j - i implies !is_blank(#[trigger] rem[q]) by {
                    assert(rem[q] == seg@[i + q]);
                }
                if (j as int) < n as int {
                    assert(rem[j - i] == seg@[j as int]);
                }
                lemma_ws_run(rem, j - i);
                assert(tok@ =~= rem.subrange(0, j - i));
                assert(rem.subrange(j - i, rem.len() as int)
                    =~= seg@.subrange(j as int, n as int));
                assert(ws_tokens(seg@) =~= out@.map_values(|t: String| t@)
                    + ws_tokens(seg@.subrange(j as int, n as int)));
            }
            i = j;
        }
    }
    proof {
        assert(seg@.subrange(n as int, n as int) =~= Seq::<char>::empty());
        assert(out@.map_values(|t: String| t@) =~= ws_tokens(seg@));
    }
    out
}

/// Parse one command line, exactly as `parse_spec` reads it: the stages in
/// pipe order with their whitespace tokens, the background mark consumed,
/// and nothing at all when some stage is empty.
#[verifier::loop_isolation(false)]
pub fn parse_line(line: &str) -> (r: Option<Pipeline>)
    ensures
        match r {
            Some(p) => parse_spec(line@) == Some((p@.stages, p@.background)),
            None => parse_spec(line@) is None,
        },
{
    let segs = split_bars(line);
    let mut toks: Vec<Vec<String>> = Vec::new();
    let mut si: usize = 0;
    let ghost raw = bar_split(line@).map_values(|seg: Seq<char>| ws_tokens(seg));
    while si < segs.len()
        invariant
            si <= segs@.len(),
            segs@.map_values(|t: String| t@) == bar_split(line@),
            toks@.len() == si,
            forall|k: int| 0 <= k < si ==> argv_view(#[trigger] toks@[k]) == raw[k],
        decreases segs@.len() - si,
    {
        let tv = split_ws(segs[si].as_str());
        toks.push(tv);
        proof {
            assert(raw[si as int] == ws_tokens(segs@[si as int]@));
        }
        si += 1;
    }
    proof {
        lemma_split_sep_len(line@, '|');
        assert(stages_view(toks@) =~= raw);
    }
    let nst = toks.len();
    proof {
        assert(toks@.len() == raw.len());
        assert(raw.last() == argv_view(toks@[nst - 1]));
    }
    let last = &toks[nst - 1];
    let mut bg = false;
    if last.len() > 0 {
        let t = &last[last.len() - 1];
        if t.as_str().unicode_len() == 1 {
            let c = t.as_str().get_char(0);
            if c == '&' {
                bg = true;
                proof {
                    assert(t@ =~= seq!['&']);
                }
            } else {
                proof {
                    assert(t@ != seq!['&']) by {
                        assert(t@[0] != '&');
                    }
                }
            }
        } else {
            proof {
                assert(t@ != seq!['&']) by {
                    assert(seq!['&'].len() == 1);
                }
            }
        }
        proof {
            assert(raw.last().last() == t@);
        }
    }
    proof {
        assert(bg == (raw.last().len() > 0 && raw.last().last() == seq!['&']));
    }
    if bg {
        let mut lastv = match toks.pop() {
            Some(v) => v,
            None => Vec::new(),
        };
        lastv.pop();
        toks.push(lastv);
        proof {
            let m = toks@.len() - 1;
            assert(argv_view(toks@[m]) =~= raw.last().drop_last());
            assert(stages_view(toks@) =~~= raw.update(raw.len() - 1, raw.last().drop_last()));
        }
    }
    let ghost stages = if bg { raw.update(raw.len() - 1, raw.last().drop_last()) } else { raw };
    proof {
        assert(stages_view(toks@) == stages);
    }
    let mut k: usize = 0;
    while k < toks.len()
        invariant
            k <= toks@.len(),
            stages_view(toks@) == stages,
            forall|m: int| 0 <= m < k ==> (#[trigger] stages[m]).len() > 0,
        decreases toks@.len() - k,
    {
        if toks[k].len() == 0 {
            proof {
                assert(stages[k as int].len() == 0);
                lemma_parse_spec_none(line@, bg, stages, k as int);
            }
            return None;
        }
        k += 1;
    }
    proof {
        lemma_parse_spec_some(line@, bg, stages);
    }
    Some(Pipeline { stages: toks, background: bg })
}

} // verus!
