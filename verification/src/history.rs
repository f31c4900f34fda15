//! The session's command history: the lines entered, in order, and the text
//! form they are saved in (one line per entry). Saving and reloading a
//! history round-trips: the text of a history parses back to exactly the
//! same entries, in the same order.

use vstd::prelude::*;
use crate::parse::split_sep;
use crate::parse::lemma_split_sep_len;
use crate::parse::lemma_split_sep_prefix;

verus! {

/// The lines entered during a session, oldest first. Entries come from the
/// line reader, so each is nonempty and holds no newline.
pub struct History {
    pub entries: Vec<String>,
}

/// An entry as the history keeps it: nonempty, and never spanning lines.
pub open spec fn entry_ok(e: Seq<char>) -> bool {
    e.len() > 0 && forall|i: int| 0 <= i < e.len() ==> (#[trigger] e[i]) != '\n'
}

pub open spec fn history_view(h: History) -> Seq<Seq<char>> {
    h.entries@.map_values(|s: String| s@)
}

pub open spec fn history_wf(h: History) -> bool {
    forall|k: int| 0 <= k < history_view(h).len() ==> entry_ok(#[trigger] history_view(h)[k])
}

/// The saved text: every entry followed by one newline.
pub open spec fn render_spec(entries: Seq<Seq<char>>) -> Seq<char>
    decreases entries.len(),
{
    if entries.len() == 0 {
        Seq::<char>::empty()
    } else {
        entries[0] + seq!['\n'] + render_spec(entries.subrange(1, entries.len() as int))
    }
}

/// The pieces with every empty one removed.
pub open spec fn drop_empty(ps: Seq<Seq<char>>) -> Seq<Seq<char>>
    decreases ps.len(),
{
    if ps.len() == 0 {
        Seq::<Seq<char>>::empty()
    } else if ps[0].len() == 0 {
        drop_empty(ps.subrange(1, ps.len() as int))
    } else {
        seq![ps[0]] + drop_empty(ps.subrange(1, ps.len() as int))
    }
}

/// The entries read back from saved text: the newline-separated pieces with
/// empty ones dropped (the trailing newline yields no extra entry, and blank
/// lines in a hand-edited file are ignored).
pub open spec fn load_spec(text: Seq<char>) -> Seq<Seq<char>> {
    drop_empty(split_sep(text, '\n'))
}

/// Reloading what was saved gives back every entry, in the original order.
pub proof fn lemma_history_round_trip(entries: Seq<Seq<char>>)
    requires
        forall|k: int| 0 <= k < entries.len() ==> entry_ok(#[trigger] entries[k]),
    ensures
        load_spec(render_spec(entries)) == entries,
    decreases entries.len(),
{
    if entries.len() == 0 {
        assert(split_sep(render_spec(entries), '\n') =~~= seq![Seq::<char>::empty()]);
        assert(seq![Seq::<char>::empty()].subrange(1, 1) =~= Seq::<Seq<char>>::empty());
        assert(drop_empty(Seq::<Seq<char>>::empty()) == Seq::<Seq<char>>::empty());
        assert(load_spec(render_spec(entries)) =~= entries);
    } else {
        let e0 = entries[0];
        let rest = entries.subrange(1, entries.len() as int);
        assert(entry_ok(e0));
        assert forall|k: int| 0 <= k < rest.len() implies entry_ok(#[trigger] rest[k]) by {
            assert(rest[k] == entries[k + 1]);
        }
        lemma_history_round_trip(rest);
        let text = render_spec(entries);
        assert(text == e0 + seq!['\n'] + render_spec(rest));
        assert forall|q: int| 0 <= q < e0.len() implies text[q] != '\n' by {
            assert(text[q] == e0[q]);
        }
        assert(text[e0.len() as int] == '\n');
        lemma_split_sep_prefix(text, '\n', e0.len() as int);
        assert(text.subrange(0, e0.len() as int) =~= e0);
        assert(text.subrange(e0.len() as int + 1, text.len() as int) =~= render_spec(rest));
        let tailsplit = split_sep(render_spec(rest), '\n');
        assert(split_sep(text, '\n') == seq![e0] + tailsplit);
        assert((seq![e0] + tailsplit)[0] == e0);
        assert((seq![e0] + tailsplit).subrange(1, (seq![e0] + tailsplit).len() as int)
            =~= tailsplit);
        assert(drop_empty(seq![e0] + tailsplit) == seq![e0] + drop_empty(tailsplit));
        assert(seq![e0] + rest =~= entries);
    }
}

impl History {
    /// An empty history.
    pub fn new() -> (h: History)
        ensures
            history_wf(h),
            history_view(h) == Seq::<Seq<char>>::empty(),
    {
        let h = History { entries: Vec::new() };
        proof {
            assert(history_view(h) =~= Seq::<Seq<char>>::empty());
        }
        h
    }

    /// Record one entered line at the end, in order.
    pub fn add_entry(&mut self, line: String)
        requires
            history_wf(*old(self)),
            entry_ok(line@),
        ensures
            history_wf(*final(self)),
            history_view(*final(self)) == history_view(*old(self)).push(line@),
    {
        let ghost pre = history_view(*old(self));
        self.entries.push(line);
        proof {
            assert(history_view(*self) =~= pre.push(line@));
        }
    }

    /// The number of recorded lines.
    pub fn len(&self) -> (n: usize)
        ensures
            n == history_view(*self).len(),
    {
        self.entries.len()
    }

    /// The text to save: every entry on a line of its own, in order.
    pub fn render(&self) -> (r: String)
        requires
            history_wf(*self),
        ensures
            r@ == render_spec(history_view(*self)),
    {
        let ghost view = history_view(*self);
        let mut out = String::new();
        let mut k: usize = 0;
        proof {
            assert(view.subrange(0, view.len() as int) =~= view);
            assert(view.subrange(k as int, view.len() as int) =~= view);
        }
        while k < self.entries.len()
            invariant
                k <= self.entries@.len(),
                view == history_view(*self),
                render_spec(view) == out@ + render_spec(
                    view.subrange(k as int, view.len() as int),
                ),
            decreases self.entries@.len() - k,
        {
            out.append(self.entries[k].as_str());
            out.append("\n");
            proof {
                reveal_strlit("\n");
                assert("\n"@ =~= seq!['\n']);
                let rem = view.subrange(k as int, view.len() as int);
                assert(rem[0] == view[k as int]);
                assert(rem.subrange(1, rem.len() as int)
                    =~= view.subrange(k + 1 as int, view.len() as int));
                assert(render_spec(rem) == rem[0] + seq!['\n']
                    + render_spec(rem.subrange(1, rem.len() as int)));
            }
            k += 1;
        }
        proof {
            assert(view.subrange(k as int, view.len() as int) =~= Seq::<Seq<char>>::empty());
            assert(out@ =~= render_spec(view));
        }
        out
    }

    /// Rebuild a history from saved text, dropping blank lines.
    pub fn load(text: &str) -> (h: History)
        ensures
            history_wf(h),
            history_view(h) == load_spec(text@),
    {
        let n = text.unicode_len();
        let mut entries: Vec<String> = Vec::new();
        let mut i: usize = 0;
        proof {
            assert(text@.subrange(0, n as int) =~= text@);
        }
        loop
            invariant_except_break
                i <= n,
                n == text@.len(),
                load_spec(text@) == entries@.map_values(|s: String| s@) + drop_empty(
                    split_sep(text@.subrange(i as int, n as int), '\n'),
                ),
                forall|k: int| 0 <= k < entries@.len() ==> entry_ok(
                    (#[trigger] entries@[k])@,
                ),
            ensures
                entries@.map_values(|s: String| s@) == load_spec(text@),
                forall|k: int| 0 <= k < entries@.len() ==> entry_ok(
                    (#[trigger] entries@[k])@,
                ),
            decreases n - i,
        {
            let mut j = i;
            while j < n && text.get_char(j) != '\n'
                invariant
                    i <= j <= n,
                    n == text@.len(),
                    forall|q: int| i <= q < j ==> text@[q] != '\n',
                decreases n - j,
            {
                j += 1;
            }
            let ghost rem = text@.subrange(i as int, n as int);
            proof {
                assert forall|q: int| 0 <= q < j - i implies rem[q] != '\n' by {
                    assert(rem[q] == text@[i + q]);
                }
                if (j as int) < n as int {
                    assert(rem[j - i] == text@[j as int]);
                }
                lemma_split_sep_prefix(rem, '\n', j - i);
                if (j as int) < n as int {
                    lemma_split_sep_len(text@.subrange(j + 1 as int, n as int), '\n');
                }
            }
            if j > i {
                let piece = text.substring_char(i, j).to_owned();
                entries.push(piece);
                proof {
                    assert(entries@.last()@ =~= rem.subrange(0, j - i));
                    assert(entry_ok(entries@.last()@));
                }
            }
            proof {
                if j == n {
                    assert(rem.subrange(0, j - i) =~= rem);
                    assert(split_sep(rem, '\n') == seq![rem]);
                    assert(seq![rem].subrange(1, 1) =~= Seq::<Seq<char>>::empty());
                    assert(drop_empty(Seq::<Seq<char>>::empty())
                        == Seq::<Seq<char>>::empty());
                    if j > i {
                        assert(drop_empty(seq![rem]) =~= seq![rem]);
                    } else {
                        assert(drop_empty(seq![rem]) =~= Seq::<Seq<char>>::empty());
                    }
                    assert(entries@.map_values(|s: String| s@) =~= load_spec(text@));
                } else {
                    let tailsplit = split_sep(text@.subrange(j + 1 as int, n as int), '\n');
                    assert(rem.subrange(j - i + 1, rem.len() as int)
                        =~= text@.subrange(j + 1 as int, n as int));
                    assert(split_sep(rem, '\n') == seq![rem.subrange(0, j - i)] + tailsplit);
                    assert((seq![rem.subrange(0, j - i)] + tailsplit)[0]
                        == rem.subrange(0, j - i));
                    assert((seq![rem.subrange(0, j - i)] + tailsplit).subrange(
                        1,
                        (seq![rem.subrange(0, j - i)] + tailsplit).len() as int,
                    ) =~= tailsplit);
                    assert(load_spec(text@) =~= entries@.map_values(|s: String| s@)
                        + drop_empty(tailsplit));
                }
            }
            if j == n {
                break;
            }
            i = j + 1;
        }
        let h = History { entries };
        proof {
            assert(history_view(h) == load_spec(text@));
        }
        h
    }
}

} // verus!
