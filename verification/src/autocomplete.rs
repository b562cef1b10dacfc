use vstd::prelude::*;

use crate::app::AppState;
use crate::text::{EDIT_PANEL_TYPE_ID, MESSAGE_PANEL_TYPE_ID};
use crate::text_util::{chars_to_string, copy_string, str_chars};

verus! {

/// Which completer offers completions for an input request.
#[derive(Debug, Clone, Copy, PartialEq, Eq, Structural, Hash)]
pub enum CompleterKind {
    /// Completes panel type names.
    Panels,
    /// Completes file paths.
    Files,
}

/// One completion of a partial input: the whole option and what remains of
/// it after the input.
#[derive(Debug, Clone, PartialEq, Eq)]
pub struct Completion {
    option: String,
    remaining: String,
}

/// A completion as a value.
pub struct CompletionModel {
    pub option: Seq<char>,
    pub remaining: Seq<char>,
}

impl View for Completion {
    type V = CompletionModel;

    closed spec fn view(&self) -> CompletionModel {
        CompletionModel { option: self.option@, remaining: self.remaining@ }
    }
}

pub open spec fn completions_view(cs: Seq<Completion>) -> Seq<CompletionModel> {
    cs.map_values(|c: Completion| c@)
}

/// The completions of the input `s` among `names`, in the order of `names`:
/// each name that starts with `s`, with the rest of the name after `s`.
pub open spec fn completions(names: Seq<Seq<char>>, s: Seq<char>) -> Seq<CompletionModel>
    decreases names.len(),
{
    if names.len() == 0 {
        Seq::empty()
    } else {
        let rest = completions(names.drop_last(), s);
        let n = names.last();
        if s.is_prefix_of(n) {
            rest.push(CompletionModel { option: n, remaining: n.skip(s.len() as int) })
        } else {
            rest
        }
    }
}

impl Completion {
    pub fn new(option: String, remaining: String) -> (c: Self)
        ensures
            c@ == (CompletionModel { option: option@, remaining: remaining@ }),
    {
        Completion { option, remaining }
    }

    pub fn option(&self) -> (r: &String)
        ensures
            r@ == self@.option,
    {
        &self.option
    }

    pub fn remaining(&self) -> (r: &String)
        ensures
            r@ == self@.remaining,
    {
        &self.remaining
    }
}

/// Whether `name` starts with `prefix`.
fn starts_with(name: &Vec<char>, prefix: &Vec<char>) -> (r: bool)
    ensures
        r == prefix@.is_prefix_of(name@),
{
    if prefix.len() > name.len() {
        return false;
    }
    let mut i: usize = 0;
    while i < prefix.len()
        invariant
            prefix@.len() <= name@.len(),
            i <= prefix@.len(),
            forall|k: int| 0 <= k < i ==> prefix@[k] == name@[k],
        decreases prefix@.len() - i,
    {
        if prefix[i] != name[i] {
            assert(prefix@[i as int] != name@.subrange(0, prefix@.len() as int)[i as int]);
            return false;
        }
        i = i + 1;
    }
    assert(prefix@ =~= name@.subrange(0, prefix@.len() as int));
    true
}

/// The characters of `cs` from `start` on.
fn chars_from(cs: &Vec<char>, start: usize) -> (r: Vec<char>)
    requires
        start <= cs@.len(),
    ensures
        r@ == cs@.skip(start as int),
{
    let mut r: Vec<char> = Vec::new();
    let mut i = start;
    while i < cs.len()
        invariant
            start <= i <= cs@.len(),
            r@ == cs@.subrange(start as int, i as int),
        decreases cs@.len() - i,
    {
        r.push(cs[i]);
        assert(cs@.subrange(start as int, i + 1) =~= cs@.subrange(start as int, i as int).push(cs@[i as int]));
        i = i + 1;
    }
    assert(cs@.subrange(start as int, cs@.len() as int) =~= cs@.skip(start as int));
    r
}

/// The completions of `s` among `names`; see `completions`.
pub fn complete_from(names: &Vec<String>, s: &str) -> (r: Vec<Completion>)
    ensures
        completions_view(r@) == completions(names@.map_values(|n: String| n@), s@),
{
    let prefix = str_chars(s);
    let ghost all = names@.map_values(|n: String| n@);
    let mut r: Vec<Completion> = Vec::new();
    let mut i: usize = 0;
    while i < names.len()
        invariant
            prefix@ == s@,
            all == names@.map_values(|n: String| n@),
            i <= names@.len(),
            completions_view(r@) == completions(all.take(i as int), s@),
        decreases names@.len() - i,
    {
        let name = str_chars(names[i].as_str());
        proof {
            assert(all.take(i + 1).drop_last() =~= all.take(i as int));
            assert(all.take(i + 1).last() == names@[i as int]@);
        }
        if starts_with(&name, &prefix) {
            let rest = chars_from(&name, prefix.len());
            let c = Completion::new(copy_string(&names[i]), chars_to_string(&rest));
            let ghost r0 = r@;
            r.push(c);
            proof {
                assert(completions_view(r@) =~= completions_view(r0).push(c@));
            }
        }
        i = i + 1;
    }
    assert(all.take(names@.len() as int) =~= all);
    r
}

/// A source of completions for partial input.
pub trait AutoCompleter {
    fn get_options(&self, s: &str) -> Vec<Completion>;
}

/// Completes panel type names.
pub struct PanelAutoCompleter {}

/// The panel type names that a panel can be changed to.
pub open spec fn panel_type_options() -> Seq<Seq<char>> {
    seq![EDIT_PANEL_TYPE_ID@, MESSAGE_PANEL_TYPE_ID@]
}

impl PanelAutoCompleter {
    pub fn new() -> (c: Self) {
        PanelAutoCompleter {}
    }

    /// The panel type names offered.
    pub fn options() -> (r: Vec<&'static str>)
        ensures
            r@.map_values(|o: &str| o@) == panel_type_options(),
    {
        let mut r: Vec<&'static str> = Vec::new();
        r.push(EDIT_PANEL_TYPE_ID);
        r.push(MESSAGE_PANEL_TYPE_ID);
        assert(r@.map_values(|o: &str| o@) =~= panel_type_options());
        r
    }
}

impl AutoCompleter for PanelAutoCompleter {
    fn get_options(&self, s: &str) -> (r: Vec<Completion>)
        ensures
            completions_view(r@) == completions(panel_type_options(), s@),
    {
        let mut names: Vec<String> = Vec::new();
        names.push(EDIT_PANEL_TYPE_ID.to_owned());
        names.push(MESSAGE_PANEL_TYPE_ID.to_owned());
        assert(names@.map_values(|n: String| n@) =~= panel_type_options());
        complete_from(&names, s)
    }
}

/// Completes file paths. Which entries a directory holds is outside work;
/// this completer picks, among the entries, those that complete the input.
pub struct FileAutoCompleter {}

impl FileAutoCompleter {
    pub fn new() -> (c: Self) {
        FileAutoCompleter {}
    }

    /// The completions of `current_input`, the last part of a path, among
    /// the names of the entries of its directory.
    pub fn complete_entries(&self, current_input: &str, entries: &Vec<String>) -> (r: Vec<Completion>)
        ensures
            completions_view(r@) == completions(entries@.map_values(|n: String| n@), current_input@),
    {
        complete_from(entries, current_input)
    }
}


/// The completions that the pending input request offers for `text`: none
/// without a request or without a completer; the panel type names that
/// complete `text` for the panel completer; for the file completer, the
/// completions found among the entries of the directory that `text` names,
/// which `file_options` holds.
pub fn completer_options(state: &AppState, text: &str, file_options: Vec<Completion>) -> (r: Option<Vec<Completion>>)
    ensures
        match state@.input_request {
            Some(req) => match req.completer {
                Some(CompleterKind::Panels) => r matches Some(v)
                    && completions_view(v@) == completions(panel_type_options(), text@),
                Some(CompleterKind::Files) => r == Some(file_options),
                None => r is None,
            },
            None => r is None,
        },
{
    match state.input_request() {
        None => None,
        Some(req) => match req.completer() {
            None => None,
            Some(CompleterKind::Panels) => Some(PanelAutoCompleter::new().get_options(text)),
            Some(CompleterKind::Files) => Some(file_options),
        },
    }
}

/// Each completion of an input is one of the names, made of the input and
/// what remains of the name.
pub proof fn lemma_completion_parts(names: Seq<Seq<char>>, s: Seq<char>, i: int)
    requires
        0 <= i < completions(names, s).len(),
    ensures
        completions(names, s)[i].option == s + completions(names, s)[i].remaining,
        names.contains(completions(names, s)[i].option),
    decreases names.len(),
{
    let rest = completions(names.drop_last(), s);
    let n = names.last();
    if i < rest.len() {
        lemma_completion_parts(names.drop_last(), s, i);
        let o = rest[i].option;
        let k = choose|k: int| 0 <= k < names.drop_last().len() && names.drop_last()[k] == o;
        assert(names[k] == o);
    } else {
        assert(s.is_prefix_of(n));
        assert(s + n.skip(s.len() as int) =~= n);
        assert(names[names.len() - 1] == n);
    }
}

/// The completions of an input are exactly the names that start with it, in
/// the order of the names, each with what follows the input: no name that
/// starts with the input is left out, and no other name is offered.
pub proof fn lemma_completions_are_matches(names: Seq<Seq<char>>, s: Seq<char>)
    ensures
        completions(names, s) == names.filter(|n: Seq<char>| s.is_prefix_of(n)).map_values(
            |n: Seq<char>| CompletionModel { option: n, remaining: n.skip(s.len() as int) },
        ),
    decreases names.len(),
{
    let f = |n: Seq<char>| CompletionModel { option: n, remaining: n.skip(s.len() as int) };
    let pred = |n: Seq<char>| s.is_prefix_of(n);
    reveal(Seq::filter);
    if names.len() == 0 {
        assert(names.filter(pred) =~= Seq::<Seq<char>>::empty());
        assert(names.filter(pred).map_values(f) =~= Seq::<CompletionModel>::empty());
    } else {
        lemma_completions_are_matches(names.drop_last(), s);
        let sub = names.drop_last().filter(pred);
        if pred(names.last()) {
            assert(names.filter(pred) == sub.push(names.last()));
            assert(sub.push(names.last()).map_values(f) =~= sub.map_values(f).push(f(names.last())));
        } else {
            assert(names.filter(pred) == sub);
        }
    }
}

/// Every name that starts with the input is offered, with what follows the
/// input; and there are as many completions as such names.
pub proof fn lemma_every_match_offered(names: Seq<Seq<char>>, s: Seq<char>, i: int)
    requires
        0 <= i < names.len(),
        s.is_prefix_of(names[i]),
    ensures
        exists|j: int| 0 <= j < completions(names, s).len() && #[trigger] completions(names, s)[j]
            == (CompletionModel { option: names[i], remaining: names[i].skip(s.len() as int) }),
        completions(names, s).len() == names.filter(|n: Seq<char>| s.is_prefix_of(n)).len(),
    decreases names.len(),
{
    lemma_completions_are_matches(names, s);
    let c = completions(names, s);
    let want = CompletionModel { option: names[i], remaining: names[i].skip(s.len() as int) };
    if i == names.len() - 1 {
        assert(c[c.len() - 1] == want);
    } else {
        lemma_every_match_offered(names.drop_last(), s, i);
        let c0 = completions(names.drop_last(), s);
        let j = choose|j: int| 0 <= j < c0.len() && #[trigger] c0[j] == want;
        assert(c0.is_prefix_of(c));
        assert(c[j] == c0[j]);
    }
}

} // verus!
