//! The formatting pipeline, as the decisions between runs of the base
//! formatter: the caller runs the formatter where a step asks for it and
//! hands back what it printed.

use crate::config::Config;
use crate::error::{Error, ErrorKind, Refusal};
use crate::merge::{merge_output_invalid, merge_rounds, merge_settled, merged_in, merged_within};
use crate::flatten::{flatten_output_invalid, flatten_rounds, flatten_settled, flattened_in, flattened_within};
use crate::names::restyled_text;
use crate::parser::{nix_refused, nix_tree, nix_valid, parse_refusal};
use crate::semantic::{check_same_content, different_fingerprint, parse_error, same_fingerprint, Opts};
use crate::sort::sorted_text;
use crate::spacing::spaced_text;
use crate::syntax::SyntaxTree;
use vstd::prelude::*;
use vstd::utf8::encode_utf8;

verus! {

/// Which run of the base formatter the pipeline waits for.
#[derive(Clone, Copy, PartialEq, Eq, Structural, Debug)]
pub enum Stage {
    /// The run before reordering.
    Before,
    /// The run after reordering.
    After,
}

/// A file on its way through the pipeline.
pub struct Run {
    /// The file as it was read.
    pub input: String,
    /// Whether the file is a `flake.nix`.
    pub is_flake: bool,
    /// The base formatter's run that the pipeline waits for.
    pub stage: Stage,
}

/// What the pipeline asks of its caller next.
pub enum Step {
    /// Run the base formatter on this text and hand back what it printed.
    Format(String),
    /// The file is done: this is the output.
    Done(String),
}

/// Which differences in content the configuration allows.
pub open spec fn allowed(cfg: Config) -> Opts {
    Opts {
        unordered_lists: cfg.lists_may_sort_spec(),
        flatten_attrs: cfg.attrs_may_merge_spec() || cfg.attrs_may_flatten_spec(),
        unstyled_names: cfg.names_may_restyle_spec(),
    }
}

/// Whether `b` keeps the content of `a`: it is `a`, or the syntax trees of
/// both have the same fingerprint, up to the differences the configuration
/// allows.
pub open spec fn keeps_content(a: Seq<char>, b: Seq<char>, cfg: Config) -> bool {
    b == a || same_fingerprint(a, b, allowed(cfg))
}

/// `out` is what restyling names makes of `src`, where the configuration
/// restyles them.
pub open spec fn restyles_to(src: Seq<char>, out: Seq<char>, cfg: Config) -> bool {
    if cfg.names_may_restyle_spec() {
        exists|t: SyntaxTree|
            #![trigger nix_tree(t, src)]
            nix_valid(t, src) && encode_utf8(out) == restyled_text(encode_utf8(src), t, cfg)
    } else {
        out == src
    }
}

/// `out` is what merging makes of `src`, where the configuration merges or
/// flattens: the rounds ran until nothing more merged, or as many as there
/// may be.
pub open spec fn merges_to(src: Seq<char>, out: Seq<char>, cfg: Config) -> bool {
    if cfg.attrs_may_merge_spec() || cfg.attrs_may_flatten_spec() {
        &&& merged_within(src, out, cfg, merge_rounds(src) as int)
        &&& merge_settled(out, cfg) || merged_in(src, out, cfg, merge_rounds(src))
    } else {
        out == src
    }
}

/// `out` is what flattening makes of `src`, where the configuration
/// flattens: the rounds ran until nothing more flattened, or as many as there
/// may be.
pub open spec fn flattens_to(src: Seq<char>, out: Seq<char>, cfg: Config) -> bool {
    if cfg.attrs_may_flatten_spec() {
        &&& flattened_within(src, out, cfg, flatten_rounds(src) as int)
        &&& flatten_settled(out, cfg) || flattened_in(src, out, cfg, flatten_rounds(src))
    } else {
        out == src
    }
}

/// `out` is what merging, then flattening, makes of `src`.
pub open spec fn restructures_to(src: Seq<char>, out: Seq<char>, cfg: Config) -> bool {
    exists|merged: Seq<char>| #[trigger] merges_to(src, merged, cfg) && flattens_to(merged, out, cfg)
}

/// `out` is what reordering makes of `src`.
pub open spec fn sorts_to(src: Seq<char>, out: Seq<char>, cfg: Config) -> bool {
    exists|t: SyntaxTree|
        #![trigger nix_tree(t, src)]
        nix_valid(t, src) && encode_utf8(out) == sorted_text(encode_utf8(src), t, cfg)
}

/// `out` is what the passes make of `src`: names restyled, bindings merged,
/// then reordered, each where the configuration asks for it.
pub open spec fn passes_to(src: Seq<char>, out: Seq<char>, cfg: Config) -> bool {
    exists|merged: Seq<char>| #[trigger] passes_before_sort(src, merged, cfg) && sorts_to(merged, out, cfg)
}

/// `out` is `src` with blank lines between top-level bindings, where the
/// configuration asks for them.
pub open spec fn spaces_to(src: Seq<char>, out: Seq<char>, cfg: Config, is_flake: bool) -> bool {
    if cfg.blank_lines_may_apply_spec() {
        exists|t: SyntaxTree|
            #![trigger nix_tree(t, src)]
            nix_valid(t, src) && encode_utf8(out) == spaced_text(encode_utf8(src), t, cfg, is_flake)
    } else {
        out == src
    }
}

/// What a step after the passes over `formatted` holds: the text handed to
/// the base formatter is what the passes made of it; the output is that,
/// spaced; and each keeps the content of what it was made from.
pub open spec fn after_passes(formatted: Seq<char>, step: Step, cfg: Config, is_flake: bool) -> bool {
    match step {
        Step::Format(text) => passes_to(formatted, text@, cfg) && keeps_content(formatted, text@, cfg),
        Step::Done(out) => exists|sorted: Seq<char>|
            #![trigger passes_to(formatted, sorted, cfg)]
            passes_to(formatted, sorted, cfg) && keeps_content(formatted, sorted, cfg) && spaces_to(
                sorted,
                out@,
                cfg,
                is_flake,
            ) && keeps_content(sorted, out@, cfg),
    }
}

/// What the last step over the base formatter's `formatted` output holds:
/// the output is that text, spaced, with its content kept.
pub open spec fn last_step(formatted: Seq<char>, step: Step, cfg: Config, is_flake: bool) -> bool {
    step matches Step::Done(out) && spaces_to(formatted, out@, cfg, is_flake) && keeps_content(formatted, out@, cfg)
}

/// Why a pass over `src` failed that makes `out(t)` of its valid syntax tree
/// `t`: `src` is not valid Nix, or that text is not UTF-8.
pub open spec fn pass_failed(src: Seq<char>, e: Error, refusal: Refusal, out: spec_fn(SyntaxTree) -> Seq<u8>) -> bool {
    parse_refusal(src, e, refusal) || (e.kind is InvalidOutput && exists|t: SyntaxTree|
        #![trigger nix_tree(t, src)]
        nix_valid(t, src) && !vstd::utf8::valid_utf8(out(t)))
}

/// Why merging `src` failed: a text that rounds of merging made of it is not
/// valid Nix, or a round made text that is not UTF-8.
pub open spec fn merge_failed(src: Seq<char>, e: Error, cfg: Config) -> bool {
    exists|m: Seq<char>, k: nat|
        #[trigger] merged_in(src, m, cfg, k) && (parse_refusal(m, e, Refusal::Merge) || (e.kind is InvalidOutput
            && merge_output_invalid(m, cfg)))
}

/// Why the content check between `a` and `b` failed: one has no syntax tree,
/// or their fingerprints differ.
pub open spec fn check_failed(a: Seq<char>, b: Seq<char>, e: Error, cfg: Config) -> bool {
    parse_error(a, e) || parse_error(b, e) || (e.kind is ContentChanged && different_fingerprint(a, b, allowed(cfg)))
}

/// Why spacing `src` and checking the result failed.
pub open spec fn finish_failed(src: Seq<char>, e: Error, cfg: Config, is_flake: bool) -> bool {
    ||| cfg.blank_lines_may_apply_spec() && pass_failed(
        src,
        e,
        Refusal::AdjustSpacing,
        |t: SyntaxTree| spaced_text(encode_utf8(src), t, cfg, is_flake),
    )
    ||| exists|out: Seq<char>| #[trigger] spaces_to(src, out, cfg, is_flake) && out != src && check_failed(src, out, e, cfg)
}

/// Why the passes over `formatted`, and what follows them, failed: the pass
/// that failed, at the text it was given, or the content check.
pub open spec fn reorder_failed(formatted: Seq<char>, e: Error, cfg: Config, is_flake: bool) -> bool {
    ||| cfg.names_may_restyle_spec() && pass_failed(
        formatted,
        e,
        Refusal::RestyleNames,
        |t: SyntaxTree| restyled_text(encode_utf8(formatted), t, cfg),
    )
    ||| exists|r1: Seq<char>|
        #[trigger] restyles_to(formatted, r1, cfg) && (cfg.attrs_may_merge_spec() || cfg.attrs_may_flatten_spec())
            && merge_failed(r1, e, cfg)
    ||| exists|r1: Seq<char>, m1: Seq<char>|
        #![trigger restyles_to(formatted, r1, cfg), merges_to(r1, m1, cfg)]
        restyles_to(formatted, r1, cfg) && merges_to(r1, m1, cfg) && cfg.attrs_may_flatten_spec() && flatten_failed(
            m1,
            e,
            cfg,
        )
    ||| exists|m1: Seq<char>|
        #![trigger passes_before_sort(formatted, m1, cfg)]
        passes_before_sort(formatted, m1, cfg) && pass_failed(
            m1,
            e,
            Refusal::Reorder,
            |t: SyntaxTree| sorted_text(encode_utf8(m1), t, cfg),
        )
    ||| exists|s: Seq<char>| #[trigger] passes_to(formatted, s, cfg) && s != formatted && check_failed(formatted, s, e, cfg)
    ||| exists|s: Seq<char>|
        #![trigger passes_to(formatted, s, cfg)]
        passes_to(formatted, s, cfg) && keeps_content(formatted, s, cfg) && finish_failed(s, e, cfg, is_flake)
}

/// `merged` is what restyling, then merging and flattening, makes of `src`.
pub open spec fn passes_before_sort(src: Seq<char>, merged: Seq<char>, cfg: Config) -> bool {
    exists|restyled: Seq<char>| #[trigger] restyles_to(src, restyled, cfg) && restructures_to(restyled, merged, cfg)
}

/// Why flattening `src` failed: a text that rounds of flattening made of it
/// is not valid Nix, or a round made text that is not UTF-8.
pub open spec fn flatten_failed(src: Seq<char>, e: Error, cfg: Config) -> bool {
    exists|m: Seq<char>, k: nat|
        #[trigger] flattened_in(src, m, cfg, k) && (parse_refusal(m, e, Refusal::Merge) || (e.kind is InvalidOutput
            && flatten_output_invalid(m, cfg)))
}

/// The errors a run can end with: input that does not parse as Nix, a
/// rewrite that is not valid UTF-8, or output whose content differs.
pub open spec fn run_error(e: Error) -> bool {
    e.kind is ParserFailed || e.kind is MalformedTree || e.kind is InvalidNix || e.kind is InvalidOutput
        || e.kind is ContentChanged
}

/// Whether a step after reordering is as the configuration asks: the base
/// formatter runs again only where `format-after-sort` is set, and then as the
/// last run.
pub open spec fn after_reorder(next: Run, step: Step, cfg: Config) -> bool {
    &&& step is Format ==> next.stage == Stage::After && cfg.format_after_sort
    &&& cfg.format_after_sort && !cfg.format_before_sort ==> step is Format
}

/// Starts a file on its way: the base formatter runs first where the
/// configuration asks for it; else the passes run on the input, which must
/// be valid Nix.
pub fn begin(input: &str, cfg: &Config, is_flake: bool) -> (r: Result<(Run, Step), Error>)
    ensures
        match r {
            Ok((run, step)) => {
                &&& run.input@ == input@
                &&& run.is_flake == is_flake
                &&& cfg.format_before_sort ==> run.stage == Stage::Before
                &&& cfg.format_before_sort ==> (step matches Step::Format(text) && text@ == input@)
                &&& !cfg.format_before_sort ==> after_reorder(run, step, *cfg)
                &&& !cfg.format_before_sort ==> after_passes(input@, step, *cfg, is_flake)
            },
            Err(e) => run_error(e) && !cfg.format_before_sort && reorder_failed(input@, e, *cfg, is_flake),
        },
        cfg.format_before_sort ==> r is Ok,
        !cfg.format_before_sort && nix_refused(input@) ==> (r matches Err(e) && e.kind is InvalidNix),
{
    let run = Run { input: input.to_owned(), is_flake, stage: Stage::Before };
    if cfg.format_before_sort {
        return Ok((run, Step::Format(input.to_owned())));
    }
    reorder(run, input.to_owned(), cfg)
}

/// Hands the base formatter's output back to the run that waited for it.
pub fn resume(run: Run, cfg: &Config, formatted: String) -> (r: Result<(Run, Step), Error>)
    ensures
        match r {
            Ok((next, step)) => {
                &&& next.input@ == run.input@
                &&& next.is_flake == run.is_flake
                &&& run.stage == Stage::Before ==> after_reorder(next, step, *cfg)
                &&& run.stage == Stage::Before ==> after_passes(formatted@, step, *cfg, run.is_flake)
                &&& run.stage == Stage::After ==> last_step(formatted@, step, *cfg, run.is_flake)
            },
            Err(e) => {
                &&& run_error(e)
                &&& run.stage == Stage::Before ==> reorder_failed(formatted@, e, *cfg, run.is_flake)
                &&& run.stage == Stage::After ==> finish_failed(formatted@, e, *cfg, run.is_flake)
            },
        },
        run.stage == Stage::Before && nix_refused(formatted@) ==> (r matches Err(e) && e.kind is InvalidNix),
        run.stage == Stage::After && !cfg.blank_lines_may_apply_spec() ==> (r matches Ok((_, step)) && step matches Step::Done(out) && out@ == formatted@),
{
    match run.stage {
        Stage::Before => reorder(run, formatted, cfg),
        Stage::After => {
            let out = finish(&run, formatted.as_str(), cfg)?;
            Ok((run, Step::Done(out)))
        },
    }
}

/// Restyles, merges and reorders the formatted text and checks that the
/// result keeps its content; the base formatter runs again where the
/// configuration asks for it and the text changed, or where it did not run
/// before.
fn reorder(run: Run, formatted: String, cfg: &Config) -> (r: Result<(Run, Step), Error>)
    ensures
        match r {
            Ok((next, step)) => {
                &&& next.input@ == run.input@
                &&& next.is_flake == run.is_flake
                &&& after_reorder(next, step, *cfg)
                &&& after_passes(formatted@, step, *cfg, run.is_flake)
            },
            Err(e) => run_error(e) && reorder_failed(formatted@, e, *cfg, run.is_flake),
        },
        nix_refused(formatted@) ==> (r matches Err(e) && e.kind is InvalidNix),
{
    let restructures = cfg.attrs_may_merge() || cfg.attrs_may_flatten();
    let restyled = if cfg.names_may_restyle() {
        match crate::names::restyle_source(formatted.as_str(), cfg) {
            Ok(x) => x,
            Err(e) => return Err(e),
        }
    } else {
        formatted.as_str().to_owned()
    };
    assert(restyles_to(formatted@, restyled@, *cfg));
    let merged = if restructures {
        match crate::merge::merge_source(restyled.as_str(), cfg) {
            Ok(x) => x,
            Err(e) => {
                assert(merge_failed(restyled@, e, *cfg));
                return Err(e);
            },
        }
    } else {
        restyled.clone()
    };
    assert(merges_to(restyled@, merged@, *cfg));
    let flattened = if cfg.attrs_may_flatten() {
        match crate::flatten::flatten_source(merged.as_str(), cfg) {
            Ok(x) => x,
            Err(e) => {
                assert(flatten_failed(merged@, e, *cfg));
                return Err(e);
            },
        }
    } else {
        merged.clone()
    };
    assert(flattens_to(merged@, flattened@, *cfg));
    assert(restructures_to(restyled@, flattened@, *cfg));
    let merged = flattened;
    assert(passes_before_sort(formatted@, merged@, *cfg));
    let sorted = match crate::sort::sort_source(merged.as_str(), cfg) {
        Ok(x) => x,
        Err(e) => {
            assert(pass_failed(merged@, e, Refusal::Reorder, |t: SyntaxTree| sorted_text(encode_utf8(merged@), t, *cfg)));
            return Err(e);
        },
    };
    assert(sorts_to(merged@, sorted@, *cfg));
    assert(passes_to(formatted@, sorted@, *cfg));
    let changed = !crate::parser::str_eq(sorted.as_str(), formatted.as_str());
    if changed {
        match check_same_content(
            formatted.as_str(),
            sorted.as_str(),
            cfg.lists_may_sort(),
            restructures,
            cfg.names_may_restyle(),
        ) {
            Ok(()) => {},
            Err(e) => {
                assert(check_failed(formatted@, sorted@, e, *cfg));
                return Err(e);
            },
        }
    }
    assert(keeps_content(formatted@, sorted@, *cfg));
    if cfg.format_after_sort && (changed || !cfg.format_before_sort) {
        let next = Run { input: run.input, is_flake: run.is_flake, stage: Stage::After };
        return Ok((next, Step::Format(sorted)));
    }
    let out = match finish(&run, sorted.as_str(), cfg) {
        Ok(x) => x,
        Err(e) => {
            assert(finish_failed(sorted@, e, *cfg, run.is_flake));
            return Err(e);
        },
    };
    Ok((run, Step::Done(out)))
}

/// Spaces the formatted text and checks that the output keeps its content.
fn finish(run: &Run, formatted: &str, cfg: &Config) -> (r: Result<String, Error>)
    ensures
        r matches Ok(out) ==> spaces_to(formatted@, out@, *cfg, run.is_flake) && keeps_content(formatted@, out@, *cfg),
        r matches Err(e) ==> run_error(e) && finish_failed(formatted@, e, *cfg, run.is_flake),
        !cfg.blank_lines_may_apply_spec() ==> (r matches Ok(out) && out@ == formatted@),
{
    let output = match crate::spacing::space_top_level(formatted, cfg, run.is_flake) {
        Ok(x) => x,
        Err(e) => return Err(e),
    };
    assert(spaces_to(formatted@, output@, *cfg, run.is_flake));
    if !crate::parser::str_eq(output.as_str(), formatted) {
        match check_same_content(
            formatted,
            output.as_str(),
            cfg.lists_may_sort(),
            cfg.attrs_may_merge() || cfg.attrs_may_flatten(),
            cfg.names_may_restyle(),
        ) {
            Ok(()) => {},
            Err(e) => {
                assert(check_failed(formatted@, output@, e, *cfg));
                return Err(e);
            },
        }
    }
    Ok(output)
}

} // verus!
