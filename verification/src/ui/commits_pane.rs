//! The list of commits, each with its wrapped message.

use vstd::prelude::*;
use vstd::string::StringExecFns;

use crate::state::{commit_position, AppState, Commit};
use crate::text::{lines, strs, text_lines};

verus! {

/// The pane that lists the commits of the range.
#[derive(Debug, Default)]
pub struct CommitsPane {}

/// The columns that the border of the pane takes from a line.
pub const HORIZONTAL_PADDING: usize = 2;

/// The lines into which `textwrap::wrap` breaks the line `line` for the
/// width `width`.
pub uninterp spec fn wrapped_lines(line: Seq<char>, width: nat) -> Seq<Seq<char>>;

/// Calls `textwrap::wrap` with a plain width, which stands for its default
/// options. The lines that it returns are a function of the text and the
/// width alone; the contract gives them their name and claims no more.
#[verifier::external_body]
fn wrap(line: &str, width: usize) -> (wrapped: Vec<String>)
    ensures
        strs(wrapped@) == wrapped_lines(line@, width as nat),
{
    textwrap::wrap(line, width).into_iter().map(|piece| piece.into_owned()).collect()
}

/// `line` between two spaces.
pub open spec fn padded(line: Seq<char>) -> Seq<char> {
    seq![' '] + line + seq![' ']
}

/// Each of `lines` between two spaces.
pub open spec fn all_padded(lines: Seq<Seq<char>>) -> Seq<Seq<char>> {
    lines.map_values(|line: Seq<char>| padded(line))
}

/// The rows that the lines `lines` of a message take at the width `width`:
/// each line as it is where the width is 0, else in the pieces into which it
/// is wrapped, and every row between two spaces.
pub open spec fn message_rows(lines: Seq<Seq<char>>, width: nat) -> Seq<Seq<char>>
    decreases lines.len(),
{
    if lines.len() == 0 {
        Seq::empty()
    } else {
        message_rows(lines.drop_last(), width) + (if width == 0 {
            seq![padded(lines.last())]
        } else {
            all_padded(wrapped_lines(lines.last(), width))
        })
    }
}

/// The rows of one commit in the list: an empty row, the hash, the author,
/// the rows of the message if there is one, and an empty row.
pub open spec fn item_rows(
    hash: Seq<char>,
    author: Seq<char>,
    message: Option<Seq<char>>,
    width: nat,
) -> Seq<Seq<char>> {
    seq![Seq::empty(), padded(hash), padded(author)] + (match message {
        Some(text) => message_rows(text_lines(text), width),
        None => Seq::empty(),
    }) + seq![Seq::empty()]
}

impl CommitsPane {
    /// The width to which messages are wrapped in a pane `total_width`
    /// columns wide.
    pub fn wrap_width(total_width: usize) -> (width: usize)
        ensures
            width == (if total_width >= HORIZONTAL_PADDING {
                total_width - HORIZONTAL_PADDING
            } else {
                0
            }),
    {
        if total_width >= HORIZONTAL_PADDING {
            total_width - HORIZONTAL_PADDING
        } else {
            0
        }
    }

    /// `line` between two spaces.
    pub fn pad(line: &str) -> (row: String)
        ensures
            row@ == padded(line@),
    {
        proof {
            reveal_strlit(" ");
        }
        let mut row = String::from_str(" ");
        row.append(line);
        row.append(" ");
        proof {
            assert(row@ =~= padded(line@));
        }
        row
    }

    /// Adds each of `lines`, between two spaces, to `rows`.
    pub fn push_padded(rows: &mut Vec<String>, lines: &Vec<String>)
        ensures
            strs(final(rows)@) == strs(old(rows)@) + all_padded(strs(lines@)),
    {
        let ghost start = strs(rows@);
        let mut i: usize = 0;
        proof {
            assert(strs(rows@) =~= start + all_padded(strs(lines@).take(0)));
        }
        while i < lines.len()
            invariant
                i <= lines.len(),
                strs(rows@) == start + all_padded(strs(lines@).take(i as int)),
            decreases lines.len() - i,
        {
            let row = Self::pad(lines[i].as_str());
            let ghost held = rows@;
            rows.push(row);
            proof {
                assert(strs(rows@) =~= strs(held).push(row@));
                assert(all_padded(strs(lines@).take(i + 1)) =~= all_padded(
                    strs(lines@).take(i as int),
                ).push(padded(lines@[i as int]@)));
            }
            i += 1;
        }
        proof {
            assert(strs(lines@).take(i as int) =~= strs(lines@));
        }
    }

    /// The rows of `commit` in the list, its message wrapped to
    /// `wrap_width` columns.
    pub fn item_lines(commit: &Commit, wrap_width: usize) -> (rows: Vec<String>)
        ensures
            strs(rows@) == item_rows(
                commit.hash@,
                commit.author@,
                match commit.message {
                    Some(text) => Some(text@),
                    None => None,
                },
                wrap_width as nat,
            ),
    {
        let mut rows: Vec<String> = Vec::new();
        rows.push(String::new());
        rows.push(Self::pad(commit.hash.as_str()));
        rows.push(Self::pad(commit.author.as_str()));
        let ghost head = strs(rows@);
        proof {
            assert(head =~= seq![Seq::empty(), padded(commit.hash@), padded(commit.author@)]);
        }
        if let Some(message) = &commit.message {
            let found = lines(message.as_str());
            let ghost all = strs(found@);
            let mut i: usize = 0;
            proof {
                assert(all.take(0) =~= Seq::empty());
                assert(strs(rows@) =~= head + message_rows(all.take(0), wrap_width as nat));
            }
            while i < found.len()
                invariant
                    i <= found.len(),
                    all == strs(found@),
                    strs(rows@) == head + message_rows(all.take(i as int), wrap_width as nat),
                decreases found.len() - i,
            {
                let ghost held = strs(rows@);
                proof {
                    assert(all.take(i + 1).drop_last() =~= all.take(i as int));
                    assert(all.take(i + 1).last() == found@[i as int]@);
                }
                if wrap_width == 0 {
                    let row = Self::pad(found[i].as_str());
                    let ghost before = rows@;
                    rows.push(row);
                    proof {
                        assert(strs(rows@) =~= strs(before).push(row@));
                        assert(strs(rows@) =~= held + seq![row@]);
                    }
                } else {
                    let wrapped = wrap(found[i].as_str(), wrap_width);
                    Self::push_padded(&mut rows, &wrapped);
                }
                proof {
                    assert(strs(rows@) =~= head + message_rows(
                        all.take(i + 1),
                        wrap_width as nat,
                    ));
                }
                i += 1;
            }
            proof {
                assert(all.take(i as int) =~= all);
            }
        }
        let ghost body = strs(rows@);
        rows.push(String::new());
        proof {
            assert(strs(rows@) =~= body + seq![Seq::empty()]);
        }
        rows
    }
}

/// What a run of items holds.
pub open spec fn item_views(items: Seq<Vec<String>>) -> Seq<Seq<Seq<char>>> {
    items.map_values(|rows: Vec<String>| strs(rows@))
}

/// The rows of `commit` at the width `width`.
pub open spec fn rows_of_commit(commit: Commit, width: nat) -> Seq<Seq<char>> {
    item_rows(
        commit.hash@,
        commit.author@,
        match commit.message {
            Some(text) => Some(text@),
            None => None,
        },
        width,
    )
}

/// What the pane shows: an item for each commit and the one that is
/// marked.
#[derive(Debug)]
pub struct CommitsView {
    pub items: Vec<Vec<String>>,
    pub selected: usize,
    pub scroll_length: usize,
    pub scroll_position: usize,
}

impl CommitsPane {
    /// What the pane shows of `state` in `total_width` columns: the
    /// commits in their order, each with its message wrapped to the width
    /// that the border leaves, the selected one marked, and a scroll bar
    /// over the commits.
    pub fn render(state: &AppState, total_width: usize) -> (view: CommitsView)
        requires
            state.wf(),
        ensures
            view.items@.len() == state.commits_order@.len(),
            forall|i: int|
                0 <= i < state.commits_order@.len() ==> strs((#[trigger] view.items@[i])@)
                    == rows_of_commit(
                    state.commits@[commit_position(state.commits@, state.commits_order@[i]@)],
                    (if total_width >= HORIZONTAL_PADDING {
                        total_width - HORIZONTAL_PADDING
                    } else {
                        0
                    }) as nat,
                ),
            view.selected == state.selected_commit,
            view.scroll_length == state.commits_order@.len(),
            view.scroll_position == state.selected_commit,
    {
        let wrap_width = Self::wrap_width(total_width);
        let mut items: Vec<Vec<String>> = Vec::new();
        let mut i: usize = 0;
        while i < state.commits_order.len()
            invariant
                state.wf(),
                i <= state.commits_order@.len(),
                items@.len() == i,
                forall|j: int|
                    0 <= j < i ==> strs((#[trigger] items@[j])@) == rows_of_commit(
                        state.commits@[commit_position(state.commits@, state.commits_order@[j]@)],
                        wrap_width as nat,
                    ),
            decreases state.commits_order@.len() - i,
        {
            let hash = &state.commits_order[i];
            let rows = match state.find_commit(hash) {
                Some(commit) => Self::item_lines(commit, wrap_width),
                None => {
                    proof {
                        assert(commit_position(state.commits@, state.commits_order@[i as int]@)
                            < state.commits@.len());
                    }
                    vstd::pervasive::unreached()
                },
            };
            items.push(rows);
            i += 1;
        }
        CommitsView {
            items,
            selected: state.selected_commit,
            scroll_length: state.commits_order.len(),
            scroll_position: state.selected_commit,
        }
    }
}

} // verus!
