//! One left-to-right pass over the argument list: each argument is an
//! option, the program name, a command or the ticker symbol, and the pass
//! reports what the arguments ask for.
use vstd::prelude::*;
use vstd::string::*;
use crate::choice::{Choice, NOT_A_SWITCH};
use crate::glossary::{
    ChoiceGlossary, Glossary, is_match, is_option_shaped, lemma_search_same_identities,
    option_shaped, search_spec,
};
use crate::text::starts_with;

verus! {

/// The only command: historical information of a ticker.
pub const HISTORY: &'static str = "history";

/// What the arguments ask for once all of them were accepted.
#[derive(Debug, PartialEq, Eq)]
pub enum Request {
    /// Nothing but the program name: show how to use the tool.
    Usage,
    /// The `history` command, or a prefix of it.
    History,
    /// Basic information on the ticker symbol given as the last argument.
    Ticker(String),
    /// Options alone, without a command or a ticker symbol.
    OptionsOnly,
}

/// A one-shot action that ends the pass.
#[derive(Debug, Clone, Copy, PartialEq, Eq, Structural)]
pub enum Action {
    Help,
    Version,
}

/// How a pass over the arguments ended.
#[derive(Debug, PartialEq, Eq)]
pub enum Outcome {
    /// Every argument was accepted.
    Resolved(Request),
    /// An option prefix matches two or more entries, listed in catalog order.
    Ambiguous { token: String, candidates: Vec<String> },
    /// An option that matches no entry.
    InvalidOption(String),
    /// A bare word that is neither the program name, a command nor the
    /// ticker symbol.
    InvalidCommand(String),
    /// An option that asks for an action.
    ActionTriggered(Action),
}

/// The position of the entry that an option token selects: the first, in
/// catalog order, whose long name starts with the token's bare name; 6 when
/// there is none.
pub open spec fn selected(g: ChoiceGlossary, t: Seq<char>) -> int {
    if is_match(t, g.help) {
        0
    } else if is_match(t, g.nocache) {
        1
    } else if is_match(t, g.offline) {
        2
    } else if is_match(t, g.quiet) {
        3
    } else if is_match(t, g.verbose) {
        4
    } else if is_match(t, g.version) {
        5
    } else {
        6
    }
}

/// The catalog with the switch at position `k` (one of the four switches)
/// turned on.
pub open spec fn enable_entry(g: ChoiceGlossary, k: int) -> ChoiceGlossary {
    if k == 1 {
        ChoiceGlossary { nocache: g.nocache.enabled(), ..g }
    } else if k == 2 {
        ChoiceGlossary { offline: g.offline.enabled(), ..g }
    } else if k == 3 {
        ChoiceGlossary { quiet: g.quiet.enabled(), ..g }
    } else {
        ChoiceGlossary { verbose: g.verbose.enabled(), ..g }
    }
}

/// A pass over `args` from position `i`, with the catalog in state `g`,
/// returns `r` and leaves the catalog in state `g2`.
///
/// Each argument is searched first: two or more candidates end the pass as
/// ambiguous. An argument that is not meant as an option is a bare word: the program name
/// at position 0 (alone, it asks for usage), a prefix of the `history`
/// command, which ends the pass, the ticker symbol in last position, or else
/// an invalid command. An option with no candidate, or whose bare name starts
/// no long name, is invalid. Otherwise the first entry it matches decides:
/// `help` and `version` trigger their action, any other entry is enabled,
/// which fails for an entry that is no switch.
pub open spec fn resolves(
    args: Seq<Seq<char>>,
    i: int,
    g: ChoiceGlossary,
    r: Result<Outcome, String>,
    g2: ChoiceGlossary,
) -> bool
    decreases args.len() - i,
{
    if i < 0 || i >= args.len() {
        g2 == g && r matches Ok(Outcome::Resolved(Request::OptionsOnly))
    } else {
        let t = args[i];
        let found = search_spec(g.entries(), t);
        let k = selected(g, t);
        if found.len() > 1 {
            g2 == g && (r matches Ok(Outcome::Ambiguous { token, candidates }) && token@ == t
                && candidates.deep_view() == found)
        } else if !is_option_shaped(t) {
            if i == 0 {
                if args.len() == 1 {
                    g2 == g && r matches Ok(Outcome::Resolved(Request::Usage))
                } else {
                    resolves(args, i + 1, g, r, g2)
                }
            } else if t.is_prefix_of(HISTORY@) {
                g2 == g && r matches Ok(Outcome::Resolved(Request::History))
            } else if i == args.len() - 1 {
                g2 == g && (r matches Ok(Outcome::Resolved(Request::Ticker(s))) && s@ == t)
            } else {
                g2 == g && (r matches Ok(Outcome::InvalidCommand(s)) && s@ == t)
            }
        } else if found.len() == 0 || k == 6 {
            g2 == g && (r matches Ok(Outcome::InvalidOption(s)) && s@ == t)
        } else if k == 0 {
            g2 == g && r matches Ok(Outcome::ActionTriggered(Action::Help))
        } else if k == 5 {
            g2 == g && r matches Ok(Outcome::ActionTriggered(Action::Version))
        } else if g.entries()[k] is Switch {
            resolves(args, i + 1, enable_entry(g, k), r, g2)
        } else {
            g2 == g && (r matches Err(e) && e@ == NOT_A_SWITCH@)
        }
    }
}

/// Resolve the argument list against the catalog of options.
///
/// The first argument is the program name. The pass stops at the first
/// argument that ends it; the switches enabled before then stay enabled in
/// `choice`. It fails with [`NOT_A_SWITCH`] when an option selects the
/// `nocache`, `offline`, `quiet` or `verbose` position and the entry there is
/// no switch.
pub fn parse_args(args: &Vec<String>, choice: &mut ChoiceGlossary) -> (r: Result<Outcome, String>)
    ensures
        resolves(args.deep_view(), 0, *old(choice), r, *final(choice)),
{
    let n = args.len();
    let ghost dv = args.deep_view();
    let ghost g0 = *choice;
    let mut i: usize = 0;
    while i < n
        invariant
            n == args@.len(),
            dv == args.deep_view(),
            g0 == *old(choice),
            i <= n,
            forall|r: Result<Outcome, String>, g2: ChoiceGlossary|
                #![trigger resolves(dv, i as int, *choice, r, g2)]
                #![trigger resolves(dv, 0, g0, r, g2)]
                resolves(dv, i as int, *choice, r, g2) == resolves(dv, 0, g0, r, g2),
        decreases n - i,
    {
        let arg: &String = &args[i];
        let ghost g = *choice;
        let ambiguous_choices = choice.search(arg.as_str());
        if ambiguous_choices.len() > 1 {
            let token = arg.clone();
            return Ok(Outcome::Ambiguous { token, candidates: ambiguous_choices });
        }
        if !option_shaped(arg.as_str()) {
            if i == 0 {
                if n == 1 {
                    return Ok(Outcome::Resolved(Request::Usage));
                }
                // the program name itself
            } else if starts_with(HISTORY, arg.as_str()) {
                return Ok(Outcome::Resolved(Request::History));
            } else if i == n - 1 {
                return Ok(Outcome::Resolved(Request::Ticker(arg.clone())));
            } else {
                return Ok(Outcome::InvalidCommand(arg.clone()));
            }
        } else if ambiguous_choices.len() == 0 {
            return Ok(Outcome::InvalidOption(arg.clone()));
        } else if choice.is_choice(arg, &choice.help) {
            return Ok(Outcome::ActionTriggered(Action::Help));
        } else if choice.is_choice(arg, &choice.nocache) {
            if let Err(e) = choice.nocache.enable() {
                return Err(e);
            }
        } else if choice.is_choice(arg, &choice.offline) {
            if let Err(e) = choice.offline.enable() {
                return Err(e);
            }
        } else if choice.is_choice(arg, &choice.quiet) {
            if let Err(e) = choice.quiet.enable() {
                return Err(e);
            }
        } else if choice.is_choice(arg, &choice.verbose) {
            if let Err(e) = choice.verbose.enable() {
                return Err(e);
            }
        } else if choice.is_choice(arg, &choice.version) {
            return Ok(Outcome::ActionTriggered(Action::Version));
        } else {
            return Ok(Outcome::InvalidOption(arg.clone()));
        }
        assert forall|r: Result<Outcome, String>, g2: ChoiceGlossary|
            resolves(dv, i + 1, *choice, r, g2) == resolves(dv, i as int, g, r, g2) by {}
        i = i + 1;
    }
    Ok(Outcome::Resolved(Request::OptionsOnly))
}

/// Enabling is not toggling: when the same option stands twice in a row and
/// selects a switch without ambiguity, the first occurrence turns the switch
/// on and the second changes nothing, so the pass goes on as if the option
/// stood once.
pub proof fn lemma_repeated_switch(args: Seq<Seq<char>>, i: int, g: ChoiceGlossary)
    requires
        0 <= i,
        i + 1 < args.len(),
        args[i] == args[i + 1],
        search_spec(g.entries(), args[i]).len() == 1,
        1 <= selected(g, args[i]) <= 4,
        g.entries()[selected(g, args[i])] is Switch,
    ensures
        ({
            let k = selected(g, args[i]);
            let g1 = enable_entry(g, k);
            &&& g1.entries()[k] matches Choice::Switch { enable, .. } && enable
            &&& forall|r: Result<Outcome, String>, g2: ChoiceGlossary|
                resolves(args, i, g, r, g2) == resolves(args, i + 2, g1, r, g2)
        }),
{
    let t = args[i];
    let k = selected(g, t);
    let g1 = enable_entry(g, k);
    lemma_search_same_identities(g1.entries(), g.entries(), t);
    assert(enable_entry(g1, k) == g1);
    assert forall|r: Result<Outcome, String>, g2: ChoiceGlossary|
        resolves(args, i, g, r, g2) == resolves(args, i + 2, g1, r, g2) by {
        assert(resolves(args, i, g, r, g2) == resolves(args, i + 1, g1, r, g2));
        assert(resolves(args, i + 1, g1, r, g2) == resolves(args, i + 2, g1, r, g2));
    }
}

/// A switch that is on stays on, unchanged, through the rest of the pass,
/// however often later options select it.
pub proof fn lemma_switch_stays_on(
    args: Seq<Seq<char>>,
    i: int,
    g: ChoiceGlossary,
    r: Result<Outcome, String>,
    g2: ChoiceGlossary,
    k: int,
)
    requires
        resolves(args, i, g, r, g2),
        1 <= k <= 4,
        g.entries()[k] matches Choice::Switch { enable, .. } && enable,
    ensures
        g2.entries()[k] == g.entries()[k],
    decreases args.len() - i,
{
    if 0 <= i < args.len() {
        let t = args[i];
        let j = selected(g, t);
        if !is_option_shaped(t) && i == 0 && args.len() != 1 {
            lemma_switch_stays_on(args, i + 1, g, r, g2, k);
        } else if is_option_shaped(t) && search_spec(g.entries(), t).len() == 1 && 1 <= j <= 4
            && g.entries()[j] is Switch {
            let g1 = enable_entry(g, j);
            assert(g1.entries()[k] == g.entries()[k]);
            lemma_switch_stays_on(args, i + 1, g1, r, g2, k);
        }
    }
}

} // verus!
