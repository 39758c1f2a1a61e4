//! The picker: the query, its matches and the highlight, and how each event
//! of the window changes them.

use vstd::prelude::*;
use crate::keys::Key;
use crate::rank::{search, searched, lemma_searched_from, LIMIT};
use crate::select::{advance, advanced, in_range, retreat, retreated};
use crate::weight::Weight;

verus! {

/// What the window reports to the picker.
#[derive(Clone, Copy, Debug, PartialEq, Eq, Structural)]
pub enum Event {
    /// The window manager asks the window to close.
    Close,
    /// A part of the window has to be drawn again.
    Expose,
    /// The window lost the input focus.
    FocusOut,
    /// A key went down.
    Press(Key),
    /// A key came up.
    Release(Key),
}

/// What the picker asks for in answer to an event.
#[derive(Debug)]
pub enum Action {
    /// End the program at once, without a choice.
    Exit,
    /// Draw the line again.
    Render,
    /// Take the input focus back.
    Refocus,
    /// Close the window and end without a choice.
    Cancel,
    /// End with this choice.
    Commit(String),
    /// Nothing: wait for the next event.
    Wait,
}

/// The picker as a mathematical value.
pub struct PickerView {
    pub executables: Seq<Seq<char>>,
    pub weight: Weight,
    pub input: Seq<char>,
    pub matches: Seq<Seq<char>>,
    pub selection: Option<usize>,
    pub shift: bool,
}

/// The first character of the lowercase form of `c` that
/// `char::to_lowercase` yields.
pub uninterp spec fn lowercase_first(c: char) -> char;

/// The picker after the query has become `input`: the matches are searched
/// anew, and nothing is highlighted.
pub open spec fn edited(s: PickerView, input: Seq<char>) -> PickerView {
    PickerView {
        executables: s.executables,
        weight: s.weight,
        input,
        matches: searched(input, s.executables, s.weight),
        selection: None,
        shift: s.shift,
    }
}

/// The picker with the highlight at `selection`.
pub open spec fn selected(s: PickerView, selection: Option<usize>) -> PickerView {
    PickerView {
        executables: s.executables,
        weight: s.weight,
        input: s.input,
        matches: s.matches,
        selection,
        shift: s.shift,
    }
}

/// The picker with the shift key down or up.
pub open spec fn shifted(s: PickerView, shift: bool) -> PickerView {
    PickerView {
        executables: s.executables,
        weight: s.weight,
        input: s.input,
        matches: s.matches,
        selection: s.selection,
        shift,
    }
}

/// The picker after the tabulator key: the highlight moves one step,
/// backward while shift is held and forward otherwise.
pub open spec fn cycled(s: PickerView) -> PickerView {
    if s.shift {
        selected(s, retreated(s.selection, s.matches.len()))
    } else {
        selected(s, advanced(s.selection, s.matches.len()))
    }
}

/// The picker after the backspace key: the query loses its last character;
/// an empty query stays as it is, with its highlight.
pub open spec fn shortened(s: PickerView) -> PickerView {
    if s.input.len() > 0 {
        edited(s, s.input.drop_last())
    } else {
        s
    }
}

/// The picker after an event.
pub open spec fn step(s: PickerView, event: Event) -> PickerView {
    match event {
        Event::Press(Key::Tab) => cycled(s),
        Event::Press(Key::BackSpace) => shortened(s),
        Event::Press(Key::Shift) => shifted(s, true),
        Event::Press(Key::Char(c)) => edited(s, s.input.push(lowercase_first(c))),
        Event::Release(Key::Shift) => shifted(s, false),
        _ => s,
    }
}

/// The choice that a commit resolves to: the highlighted match, or the
/// query as typed where nothing is highlighted.
pub open spec fn resolved(s: PickerView) -> Seq<char> {
    match s.selection {
        Some(i) => if i < s.matches.len() {
            s.matches[i as int]
        } else {
            s.input
        },
        None => s.input,
    }
}

/// Whether `action` is the answer of the picker `s` to `event`.
pub open spec fn answers(s: PickerView, event: Event, action: Action) -> bool {
    match event {
        Event::Close => action is Exit,
        Event::Expose => action is Render,
        Event::FocusOut => action is Refocus,
        Event::Press(Key::Escape) => action is Cancel,
        Event::Press(Key::Return) => action matches Action::Commit(choice) && choice@ == resolved(s),
        Event::Press(_) => action is Render,
        Event::Release(_) => action is Wait,
    }
}

/// What holds of every picker: the matches are those of the query, and the
/// highlight, if any, is one of them.
pub open spec fn consistent(s: PickerView) -> bool {
    &&& s.matches == searched(s.input, s.executables, s.weight)
    &&& in_range(s.selection, s.matches.len())
}

/// `String::push` appends one character.
pub assume_specification[ String::push ](s: &mut String, c: char)
    ensures
        final(s)@ == old(s)@.push(c),
;

/// `String::pop` removes the last character and returns it, or returns
/// `None` and leaves the string empty where it is empty.
pub assume_specification[ String::pop ](s: &mut String) -> (r: Option<char>)
    ensures
        old(s)@.len() == 0 ==> r is None && final(s)@ == old(s)@,
        old(s)@.len() > 0 ==> r == Some(old(s)@.last()) && final(s)@ == old(s)@.drop_last(),
;

/// Calls `char::to_lowercase` and takes the first character that its
/// iterator yields; the lowercase form of a character has at least one.
#[verifier::external_body]
fn first_lowercase(c: char) -> (r: Option<char>)
    ensures
        r == Some(lowercase_first(c)),
{
    c.to_lowercase().next()
}

/// The query, the matches and the highlight, which change together.
struct Line {
    input: String,
    matches: Vec<String>,
    matches_i: Option<usize>,
    is_shift: bool,
}

/// The state of the interaction: the candidates and the weight, fixed from
/// the start, and the query with its matches and highlight.
pub struct Picker {
    executables: Vec<String>,
    weight: Weight,
    line: Line,
}

impl View for Picker {
    type V = PickerView;

    closed spec fn view(&self) -> PickerView {
        PickerView {
            executables: self.executables.deep_view(),
            weight: self.weight,
            input: self.line.input@,
            matches: self.line.matches.deep_view(),
            selection: self.line.matches_i,
            shift: self.line.is_shift,
        }
    }
}

impl Picker {
    #[verifier::type_invariant]
    spec fn well_formed(self) -> bool {
        consistent(self@)
    }

    /// A picker over `executables` with an empty query.
    pub fn new(executables: Vec<String>, weight: Weight) -> (r: Picker)
        ensures
            r@.executables == executables.deep_view(),
            r@.weight == weight,
            r@.input.len() == 0,
            r@.matches.len() == 0,
            r@.selection is None,
            !r@.shift,
            consistent(r@),
    {
        let input = String::new();
        let matches: Vec<String> = Vec::new();
        proof {
            assert(matches.deep_view() =~= Seq::<Seq<char>>::empty());
            assert(input@ =~= Seq::<char>::empty());
        }
        Picker {
            executables,
            weight,
            line: Line { input, matches, matches_i: None, is_shift: false },
        }
    }

    /// The query as typed so far.
    pub fn input(&self) -> (r: &String)
        ensures
            r@ == self@.input,
    {
        &self.line.input
    }

    /// The matches of the query, best first.
    pub fn matches(&self) -> (r: &Vec<String>)
        ensures
            r.deep_view() == self@.matches,
            r.deep_view() == searched(self@.input, self@.executables, self@.weight),
            r@.len() <= LIMIT,
    {
        proof {
            use_type_invariant(self);
            lemma_searched_from(self@.input, self@.executables, self@.weight);
        }
        &self.line.matches
    }

    /// The index of the highlighted match, which is always one of the
    /// matches.
    pub fn selection(&self) -> (r: Option<usize>)
        ensures
            r == self@.selection,
            in_range(r, self@.matches.len()),
    {
        proof {
            use_type_invariant(self);
        }
        self.line.matches_i
    }

    /// Whether a shift key is held.
    pub fn is_shift(&self) -> (r: bool)
        ensures
            r == self@.shift,
    {
        self.line.is_shift
    }

    /// Replaces the query: the matches are searched anew and the highlight
    /// is dropped.
    fn edit(&mut self, input: String)
        ensures
            final(self)@ == edited(old(self)@, input@),
    {
        proof {
            use_type_invariant(&*self);
        }
        let matches = search(input.as_str(), &self.executables, &self.weight);
        self.line = Line { input, matches, matches_i: None, is_shift: self.line.is_shift };
    }

    /// Appends `c` to the query.
    pub fn append(&mut self, c: char)
        ensures
            final(self)@ == edited(old(self)@, old(self)@.input.push(c)),
            final(self)@.selection is None,
    {
        let mut input = self.line.input.clone();
        input.push(c);
        self.edit(input);
    }

    /// Deletes the last character of the query, if it has one.
    pub fn delete_last(&mut self)
        ensures
            final(self)@ == shortened(old(self)@),
            old(self)@.input.len() > 0 ==> final(self)@.selection is None,
    {
        let mut input = self.line.input.clone();
        match input.pop() {
            Some(_) => {
                self.edit(input);
            },
            None => {},
        }
    }

    /// Moves the highlight one step: backward while shift is held, forward
    /// otherwise.
    pub fn cycle(&mut self)
        ensures
            final(self)@ == cycled(old(self)@),
    {
        proof {
            use_type_invariant(&*self);
        }
        let len: usize = self.line.matches.len();
        let next = if self.line.is_shift {
            retreat(self.line.matches_i, len)
        } else {
            advance(self.line.matches_i, len)
        };
        self.line.matches_i = next;
    }

    /// Records that a shift key went down or up.
    pub fn set_shift(&mut self, down: bool)
        ensures
            final(self)@ == shifted(old(self)@, down),
    {
        proof {
            use_type_invariant(&*self);
        }
        self.line.is_shift = down;
    }

    /// The choice that a commit resolves to.
    pub fn resolve(&self) -> (r: String)
        ensures
            r@ == resolved(self@),
    {
        match self.line.matches_i {
            Some(i) => {
                if i < self.line.matches.len() {
                    self.line.matches[i].clone()
                } else {
                    self.line.input.clone()
                }
            },
            None => self.line.input.clone(),
        }
    }

    /// Takes one event: changes the state as the event asks and says what
    /// has to be done next.
    pub fn apply(&mut self, event: Event) -> (action: Action)
        ensures
            final(self)@ == step(old(self)@, event),
            answers(old(self)@, event, action),
            consistent(final(self)@),
    {
        proof {
            use_type_invariant(&*self);
        }
        let action = match event {
            Event::Close => Action::Exit,
            Event::Expose => Action::Render,
            Event::FocusOut => Action::Refocus,
            Event::Press(key) => match key {
                Key::Escape => Action::Cancel,
                Key::Return => Action::Commit(self.resolve()),
                Key::Tab => {
                    self.cycle();
                    Action::Render
                },
                Key::BackSpace => {
                    self.delete_last();
                    Action::Render
                },
                Key::Shift => {
                    self.set_shift(true);
                    Action::Render
                },
                Key::Char(c) => {
                    match first_lowercase(c) {
                        Some(lower) => {
                            self.append(lower);
                        },
                        None => {},
                    }
                    Action::Render
                },
                Key::Other => Action::Render,
            },
            Event::Release(key) => {
                match key {
                    Key::Shift => {
                        self.set_shift(false);
                    },
                    _ => {},
                }
                Action::Wait
            },
        };
        proof {
            use_type_invariant(&*self);
        }
        action
    }
}

/// Every event leaves the picker consistent: the matches are those of the
/// query, and the highlight is one of them.
pub proof fn lemma_step_consistent(s: PickerView, event: Event)
    requires
        consistent(s),
    ensures
        consistent(step(s, event)),
{
}

/// Every change of the query drops the highlight: after a character is
/// typed, or one is deleted, nothing is highlighted.
pub proof fn lemma_edit_drops_highlight(s: PickerView, event: Event)
    requires
        event matches Event::Press(Key::Char(c)) || event == Event::Press(Key::BackSpace)
            && s.input.len() > 0,
    ensures
        step(s, event).selection is None,
        step(s, event).input != s.input,
{
    match event {
        Event::Press(Key::Char(c)) => {
            assert(s.input.push(lowercase_first(c)).len() != s.input.len());
        },
        _ => {
            assert(s.input.drop_last().len() != s.input.len());
        },
    }
}

/// The highlight changes only with the query or the tabulator key: where
/// the query stays, every event but `Tab` leaves the highlight alone.
pub proof fn lemma_highlight_moves_with_tab_only(s: PickerView, event: Event)
    requires
        event != Event::Press(Key::Tab),
        step(s, event).input == s.input,
    ensures
        step(s, event).selection == s.selection,
{
    match event {
        Event::Press(Key::Char(c)) => {
            assert(s.input.push(lowercase_first(c)).len() != s.input.len());
        },
        Event::Press(Key::BackSpace) => {
            if s.input.len() > 0 {
                assert(s.input.drop_last().len() != s.input.len());
            }
        },
        _ => {},
    }
}

} // verus!
