//! The line compositor: the query and its matches as a sequence of
//! segments of text, each in the primary or the secondary colour.

use vstd::prelude::*;

verus! {

/// Which of the two colours a segment is drawn in.
#[derive(Clone, Copy, Debug, PartialEq, Eq, Structural)]
pub enum Shade {
    /// The configured colour: the text that a commit would choose.
    Primary,
    /// Half the configured colour: everything else.
    Secondary,
}

/// A piece of text in one colour.
#[derive(Debug)]
pub struct Segment {
    pub text: String,
    pub shade: Shade,
}

impl DeepView for Segment {
    type V = (Seq<char>, Shade);

    open spec fn deep_view(&self) -> (Seq<char>, Shade) {
        (self.text@, self.shade)
    }
}

/// The text shown in place of an empty query.
pub open spec fn placeholder() -> Seq<char> {
    "_"@
}

/// The text shown between two segments.
pub open spec fn separator() -> Seq<char> {
    " "@
}

/// The shade of the query: primary while nothing is highlighted.
pub open spec fn query_shade(selection: Option<usize>) -> Shade {
    if selection is None {
        Shade::Primary
    } else {
        Shade::Secondary
    }
}

/// The shade of match `i`: primary where it is the highlighted one.
pub open spec fn match_shade(selection: Option<usize>, i: int) -> Shade {
    match selection {
        Some(k) => if k == i {
            Shade::Primary
        } else {
            Shade::Secondary
        },
        None => Shade::Secondary,
    }
}

/// The segments of one line. An empty query gives the placeholder alone.
/// Otherwise the query comes first, and then, for each match in order, a
/// separator and the match.
pub open spec fn composed(input: Seq<char>, matches: Seq<Seq<char>>, selection: Option<usize>) -> Seq<
    (Seq<char>, Shade),
> {
    if input.len() == 0 {
        seq![(placeholder(), Shade::Primary)]
    } else {
        Seq::new(
            1 + 2 * matches.len(),
            |k: int|
                if k == 0 {
                    (input, query_shade(selection))
                } else if k % 2 == 1 {
                    (separator(), Shade::Secondary)
                } else {
                    (matches[k / 2 - 1], match_shade(selection, k / 2 - 1))
                },
        )
    }
}

/// Composes the line for a query, its matches and the highlight.
pub fn compose(input: &str, matches: &Vec<String>, matches_i: Option<usize>) -> (r: Vec<Segment>)
    ensures
        r.deep_view() == composed(input@, matches.deep_view(), matches_i),
{
    let mut line: Vec<Segment> = Vec::new();
    if input.is_empty() {
        line.push(Segment { text: "_".to_owned(), shade: Shade::Primary });
        proof {
            assert(line.deep_view() =~= composed(input@, matches.deep_view(), matches_i));
        }
        return line;
    }
    let shade = if matches_i.is_none() {
        Shade::Primary
    } else {
        Shade::Secondary
    };
    line.push(Segment { text: input.to_owned(), shade });
    let mut i: usize = 0;
    while i < matches.len()
        invariant
            i <= matches@.len(),
            input@.len() > 0,
            line@.len() == 1 + 2 * i,
            forall|k: int|
                0 <= k < line@.len() ==> (#[trigger] line@[k]).deep_view() == composed(
                    input@,
                    matches.deep_view(),
                    matches_i,
                )[k],
        decreases matches@.len() - i,
    {
        line.push(Segment { text: " ".to_owned(), shade: Shade::Secondary });
        let shade = match matches_i {
            Some(k) => if k == i {
                Shade::Primary
            } else {
                Shade::Secondary
            },
            None => Shade::Secondary,
        };
        proof {
            assert(matches.deep_view()[i as int] == matches@[i as int]@);
        }
        line.push(Segment { text: matches[i].clone(), shade });
        i = i + 1;
    }
    proof {
        assert(line.deep_view() =~= composed(input@, matches.deep_view(), matches_i));
    }
    line
}

/// The first segment of a line is the query, or the placeholder for an
/// empty one, and it is primary exactly while nothing is highlighted.
pub proof fn lemma_first_segment(input: Seq<char>, matches: Seq<Seq<char>>, selection: Option<usize>)
    ensures
        composed(input, matches, selection).len() >= 1,
        input.len() == 0 ==> composed(input, matches, selection) == seq![
            (placeholder(), Shade::Primary),
        ],
        input.len() > 0 ==> composed(input, matches, selection)[0] == (
            input,
            query_shade(selection),
        ),
{
}

/// Behind the query, match `i` stands at place `2 * i + 2` with a
/// secondary separator before it, and it is primary exactly where it is
/// the highlighted match.
pub proof fn lemma_match_segment(
    input: Seq<char>,
    matches: Seq<Seq<char>>,
    selection: Option<usize>,
    i: int,
)
    requires
        input.len() > 0,
        0 <= i < matches.len(),
    ensures
        composed(input, matches, selection)[2 * i + 1] == (separator(), Shade::Secondary),
        composed(input, matches, selection)[2 * i + 2] == (matches[i], match_shade(selection, i)),
        (composed(input, matches, selection)[2 * i + 2].1 == Shade::Primary) <==> (
        selection matches Some(k) && k == i),
{
}

/// At most one segment behind the query is primary, and none is while the
/// query itself is.
pub proof fn lemma_one_primary(
    input: Seq<char>,
    matches: Seq<Seq<char>>,
    selection: Option<usize>,
    a: int,
    b: int,
)
    requires
        input.len() > 0,
        0 <= a < b < composed(input, matches, selection).len(),
        composed(input, matches, selection)[a].1 == Shade::Primary,
    ensures
        composed(input, matches, selection)[b].1 == Shade::Secondary,
{
}

} // verus!
