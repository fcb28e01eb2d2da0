//! The command synthesizer: turns a handler's registered command template
//! and a resolved target into a launch plan.  The trimmed template is
//! tokenized with POSIX-shell quoting rules, registry field-code tokens
//! (`%u`, `%U`, `%f`, ...) are discarded, and the target URL is appended
//! as the final argument.  A template with no usable executable token
//! falls back to the OS "open this URI" facility.

use vstd::prelude::*;
use crate::classify::{ResolvedTarget, TargetView};
use crate::text::{all_space, lemma_trim_ignores_padding, trim_spec, trim_str};

verus! {

/// What `shlex::split` yields on a given template: the shell words, or
/// nothing when the input is malformed.  The result is a function of the
/// characters alone.
pub uninterp spec fn shell_split(s: Seq<char>) -> Option<Seq<Seq<char>>>;

/// Relies on shlex::split: POSIX-shell word splitting of the template.
/// It returns None exactly when the input ends inside a quotation or
/// right after an unescaped backslash.
#[verifier::external_body]
fn shell_split_words(s: &str) -> (r: Option<Vec<String>>)
    ensures
        match r {
            Some(words) => shell_split(s@) == Some(words.deep_view()),
            None => shell_split(s@) is None,
        },
{
    shlex::split(s)
}

/// A token that begins with `%` is a registry field-code placeholder and
/// is discarded rather than substituted: the target is appended
/// explicitly instead.
pub open spec fn is_field_code(tok: Seq<char>) -> bool {
    tok.len() > 0 && tok[0] == '%'
}

/// The words of `words` that are not field codes, in order.
pub open spec fn strip_field_codes(words: Seq<Seq<char>>) -> Seq<Seq<char>>
    decreases words.len(),
{
    if words.len() == 0 {
        Seq::empty()
    } else {
        let rest = strip_field_codes(words.drop_last());
        if is_field_code(words.last()) {
            rest
        } else {
            rest + seq![words.last()]
        }
    }
}

/// Whether this token is a field-code placeholder.
fn token_is_field_code(tok: &str) -> (r: bool)
    ensures
        r == is_field_code(tok@),
{
    tok.unicode_len() > 0 && tok.get_char(0) == '%'
}

/// Drop every field-code token, keeping the remaining words in order.
fn strip_codes(words: &Vec<String>) -> (r: Vec<String>)
    ensures
        r.deep_view() == strip_field_codes(words.deep_view()),
{
    let ghost full: Seq<Seq<char>> = words.deep_view();
    let mut out: Vec<String> = Vec::new();
    let mut i: usize = 0;
    proof {
        assert(full.take(0) =~= Seq::<Seq<char>>::empty());
        assert(out.deep_view() =~= Seq::<Seq<char>>::empty());
    }
    while i < words.len()
        invariant
            i <= words@.len(),
            full == words.deep_view(),
            out.deep_view() == strip_field_codes(full.take(i as int)),
        decreases words@.len() - i,
    {
        let tok = &words[i];
        proof {
            assert(full.take(i + 1).drop_last() =~= full.take(i as int));
            assert(full.take(i + 1).last() == full[i as int]);
            assert(full[i as int] == tok@);
        }
        if !token_is_field_code(tok) {
            let ghost before = out.deep_view();
            out.push(tok.clone());
            proof {
                assert(out.deep_view() =~= before + seq![tok@]);
            }
        }
        i = i + 1;
    }
    proof {
        assert(full.take(words@.len() as int) =~= full);
    }
    out
}

/// How a handler is to be started for a resolved target.
#[derive(Debug, PartialEq, Eq)]
pub enum LaunchPlan {
    /// Start the handler with no arguments.
    NoArgument,
    /// Spawn `program` with `args`: the template's remaining tokens, then
    /// the target URL last.
    Spawn { program: String, args: Vec<String> },
    /// No usable executable token was found: ask the OS to open the URI
    /// with the registered handler.
    OpenUri { uri: String },
}

/// Mathematical image of a `LaunchPlan`.
pub enum PlanView {
    NoArgument,
    Spawn { program: Seq<char>, args: Seq<Seq<char>> },
    OpenUri { uri: Seq<char> },
}

impl View for LaunchPlan {
    type V = PlanView;

    open spec fn view(&self) -> PlanView {
        match self {
            LaunchPlan::NoArgument => PlanView::NoArgument,
            LaunchPlan::Spawn { program, args } => PlanView::Spawn {
                program: program@,
                args: args.deep_view(),
            },
            LaunchPlan::OpenUri { uri } => PlanView::OpenUri { uri: uri@ },
        }
    }
}

/// Why a launch failed.  The variants carry the registry id or the
/// reason reported by the OS; handling happens at the process boundary.
#[derive(Debug, PartialEq, Eq)]
pub enum LaunchError {
    /// The executable could not be started.
    SpawnFailed(String),
    /// The handler id no longer resolves in the registry.
    HandlerNotFound(String),
    /// The URI fallback was needed but the target is not a well-formed
    /// absolute URI.
    UnsupportedTarget(String),
}

/// The plan owed for a template and target: nothing for an empty target;
/// otherwise the trimmed template is shell-tokenized, field codes are
/// dropped, the first remaining token is the program and the URL comes
/// last; failed tokenization or an empty result falls back to a URI
/// launch.
pub open spec fn plan_spec(template: Seq<char>, target: TargetView) -> PlanView {
    match target {
        TargetView::NoArgument => PlanView::NoArgument,
        TargetView::Url(url) => match shell_split(trim_spec(template)) {
            Option::Some(words) => {
                let kept = strip_field_codes(words);
                if kept.len() == 0 {
                    PlanView::OpenUri { uri: url }
                } else {
                    PlanView::Spawn { program: kept[0], args: kept.drop_first().push(url) }
                }
            },
            Option::None => PlanView::OpenUri { uri: url },
        },
    }
}

/// Synthesize the launch plan for a handler's raw command template and a
/// resolved target.
pub fn plan_launch(template: &str, target: &ResolvedTarget) -> (r: LaunchPlan)
    ensures
        r@ == plan_spec(template@, target@),
{
    match target {
        ResolvedTarget::NoArgument => LaunchPlan::NoArgument,
        ResolvedTarget::Url(url) => {
            let trimmed = trim_str(template);
            match shell_split_words(trimmed) {
                Option::Some(words) => {
                    let kept = strip_codes(&words);
                    if kept.len() == 0 {
                        proof {
                            assert(strip_field_codes(words.deep_view()).len() == 0);
                        }
                        LaunchPlan::OpenUri { uri: url.clone() }
                    } else {
                        let ghost keptv = kept.deep_view();
                        let program = kept[0].clone();
                        let mut args: Vec<String> = Vec::new();
                        let mut j: usize = 1;
                        proof {
                            assert(args.deep_view() =~= keptv.subrange(1, 1));
                        }
                        while j < kept.len()
                            invariant
                                1 <= j <= kept@.len(),
                                keptv == kept.deep_view(),
                                args.deep_view() == keptv.subrange(1, j as int),
                            decreases kept@.len() - j,
                        {
                            let ghost before = args.deep_view();
                            args.push(kept[j].clone());
                            proof {
                                assert(args.deep_view() =~= before + seq![keptv[j as int]]);
                                assert(keptv.subrange(1, j as int) + seq![keptv[j as int]]
                                    =~= keptv.subrange(1, j + 1));
                            }
                            j = j + 1;
                        }
                        let ghost before = args.deep_view();
                        args.push(url.clone());
                        proof {
                            assert(keptv.subrange(1, keptv.len() as int) =~= keptv.drop_first());
                            assert(args.deep_view() =~= before.push(url@));
                            assert(program@ == keptv[0]);
                        }
                        LaunchPlan::Spawn { program, args }
                    }
                },
                Option::None => LaunchPlan::OpenUri { uri: url.clone() },
            }
        },
    }
}

/// The words the synthesizer works from: shell splitting of the trimmed
/// template, then field-code stripping.
pub open spec fn template_words(template: Seq<char>) -> Option<Seq<Seq<char>>> {
    match shell_split(trim_spec(template)) {
        Option::Some(words) => Option::Some(strip_field_codes(words)),
        Option::None => Option::None,
    }
}

/// Tokenization followed by field-code stripping is invariant to leading
/// and trailing whitespace on the template, and so is the whole launch
/// plan.
pub proof fn lemma_tokenization_ignores_padding(p: Seq<char>, template: Seq<char>, q: Seq<char>)
    requires
        all_space(p),
        all_space(q),
    ensures
        template_words(p + template + q) == template_words(template),
        forall|target: TargetView| #[trigger] plan_spec(p + template + q, target) == plan_spec(
            template,
            target,
        ),
{
    lemma_trim_ignores_padding(p, template, q);
}

} // verus!
