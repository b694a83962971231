//! The format-preserving substitution engine. A single forward pass over the
//! scalar events of the configuration text reconstructs the nesting path of
//! each scalar from line and column deltas, and rewrites exactly those value
//! spans whose path resolves to a stringifiable leaf of the colorscheme tree,
//! copying every other line verbatim.

use vstd::prelude::*;

use crate::color::{
    path_view, spec_lookup, spec_stringify, spec_substitutable, ColorNode, ColorValue, lookup,
    stringify_chars,
};
use crate::scan::{
    events_view, scalar_scan_of, scan_scalars, yaml_docs_of, load_yaml_docs, ScalarEvent,
};
use crate::text::{
    chars_of, copy_lines, joinable, lemma_copy_lines_concat, lemma_copy_lines_snoc,
    lemma_unlines_lines, lines_view, push_chars, push_prefix, spec_lines, split_lines,
    string_from_chars, unlines,
};
use crate::Error;

verus! {

/// The scanner's state between two scalar events: the next source line not
/// yet copied to the output, the reconstructed key path, the position of the
/// previously observed scalar, and the output text built so far.
pub struct PatchState {
    pub line_index: int,
    pub path: Seq<Seq<char>>,
    pub last_line: int,
    pub last_col: int,
    pub out: Seq<char>,
}

/// The state before any event: nothing copied, an empty path, and a position
/// no real event carries (markers count lines from 1).
pub open spec fn init_state() -> PatchState {
    PatchState {
        line_index: 0,
        path: Seq::empty(),
        last_line: 0,
        last_col: 0,
        out: Seq::empty(),
    }
}

/// A scalar on a new source line is a key: the path stack is adjusted by the
/// column delta. The same column replaces the last segment (a sibling key);
/// one indent level deeper (two columns) descends; a smaller column dedents
/// to depth `col / 2` before the key is pushed; any other delta leaves the
/// state entirely unchanged.
pub open spec fn step_key(st: PatchState, name: Seq<char>, line: int, col: int) -> PatchState {
    if col == st.last_col {
        let popped = if st.path.len() > 0 {
            st.path.drop_last()
        } else {
            st.path
        };
        PatchState { path: popped.push(name), last_line: line, last_col: col, ..st }
    } else if col == st.last_col + 2 {
        PatchState { path: st.path.push(name), last_line: line, last_col: col, ..st }
    } else if col < st.last_col {
        let depth = col / 2;
        let trimmed = if 0 <= depth < st.path.len() {
            st.path.take(depth)
        } else {
            st.path
        };
        PatchState { path: trimmed.push(name), last_line: line, last_col: col, ..st }
    } else {
        st
    }
}

/// A scalar on the same line as the previous one is the value paired with
/// the key on top of the path. When the path resolves to a stringifiable
/// leaf, and the event's position lies within the source, the untouched
/// lines before it and the key's own prefix of its line are copied and the
/// replacement text is written with a line terminator; otherwise nothing
/// changes and the line is left to be copied verbatim later.
pub open spec fn step_value(
    lines: Seq<Seq<char>>,
    tree: ColorNode,
    st: PatchState,
    line: int,
    col: int,
) -> PatchState {
    match spec_lookup(tree, st.path) {
        Some(found) => match spec_stringify(found) {
            Some(rep) => {
                if 1 <= line <= lines.len() && 0 <= col <= lines[line - 1].len() {
                    PatchState {
                        out: st.out + copy_lines(lines, st.line_index, line - 1) + lines[line
                            - 1].take(col) + rep + seq!['\n'],
                        line_index: line,
                        ..st
                    }
                } else {
                    st
                }
            },
            None => st,
        },
        None => st,
    }
}

/// One scalar event `(name, line, col)`: a key when the line is new, a value
/// when it repeats the previous scalar's line.
pub open spec fn step(
    lines: Seq<Seq<char>>,
    tree: ColorNode,
    st: PatchState,
    ev: (Seq<char>, int, int),
) -> PatchState {
    if ev.1 != st.last_line {
        step_key(st, ev.0, ev.1, ev.2)
    } else {
        step_value(lines, tree, st, ev.1, ev.2)
    }
}

/// The state after all of `events`, in order, from the initial state.
pub open spec fn run(
    lines: Seq<Seq<char>>,
    tree: ColorNode,
    events: Seq<(Seq<char>, int, int)>,
) -> PatchState
    decreases events.len(),
{
    if events.len() == 0 {
        init_state()
    } else {
        step(lines, tree, run(lines, tree, events.drop_last()), events.last())
    }
}

/// The patched text: the output after all events, followed by every source
/// line not yet copied, verbatim.
pub open spec fn spec_patch(
    lines: Seq<Seq<char>>,
    events: Seq<(Seq<char>, int, int)>,
    tree: ColorNode,
) -> Seq<char> {
    let fin = run(lines, tree, events);
    fin.out + copy_lines(lines, fin.line_index, lines.len() as int)
}

/// Law: a key at a smaller column than the previous scalar resets the path
/// to exactly the ancestors the column implies — the first `col / 2` old
/// segments, with the new key on top and no stale deeper segment.
pub proof fn lemma_sibling_reset(st: PatchState, name: Seq<char>, line: int, col: int)
    requires
        0 <= col < st.last_col,
        col / 2 <= st.path.len(),
    ensures
        step_key(st, name, line, col).path == st.path.take(col / 2).push(name),
        step_key(st, name, line, col).path.len() == col / 2 + 1,
{
    if !(col / 2 < st.path.len()) {
        assert(st.path.take(col / 2) =~= st.path);
    }
}

/// Law: a value whose path resolves to a mapping or sequence node of the
/// colorscheme tree is left unmodified — the step changes nothing at all.
pub proof fn lemma_type_guard(
    lines: Seq<Seq<char>>,
    tree: ColorNode,
    st: PatchState,
    line: int,
    col: int,
)
    requires
        spec_lookup(tree, st.path) matches Some(n) && (n is Mapping || n is Sequence),
    ensures
        step_value(lines, tree, st, line, col) == st,
{
}

/// Under the hypotheses of `lemma_round_trip`, no event ever writes or
/// copies anything: the state keeps an empty output and an untouched copy
/// cursor, and the path is empty exactly as long as no real event was seen.
proof fn lemma_run_no_subst(
    lines: Seq<Seq<char>>,
    events: Seq<(Seq<char>, int, int)>,
    tree: ColorNode,
)
    requires
        forall|p: Seq<Seq<char>>| p.len() > 0 ==> !(#[trigger] spec_substitutable(tree, p)),
        forall|i: int| 0 <= i < events.len() ==> (#[trigger] events[i]).1 >= 1,
    ensures
        run(lines, tree, events).out == Seq::<char>::empty(),
        run(lines, tree, events).line_index == 0,
        run(lines, tree, events).last_line == 0 ==> run(lines, tree, events).path.len() == 0,
        run(lines, tree, events).last_line != 0 ==> run(lines, tree, events).path.len() >= 1,
    decreases events.len(),
{
    if events.len() > 0 {
        assert forall|i: int| 0 <= i < events.drop_last().len() implies (#[trigger] events.drop_last()[i]).1
            >= 1 by {
            assert(events.drop_last()[i] == events[i]);
        }
        lemma_run_no_subst(lines, events.drop_last(), tree);
        let prev = run(lines, tree, events.drop_last());
        let ev = events.last();
        if ev.1 == prev.last_line {
            assert(ev.1 >= 1);
            assert(prev.path.len() >= 1);
            assert(!spec_substitutable(tree, prev.path));
        }
    }
}

/// Law (round-trip identity): when no nonempty path resolves to a
/// stringifiable leaf of the colorscheme tree, patching substitutes nothing
/// and the output is exactly the source lines joined back.
pub proof fn lemma_round_trip(
    lines: Seq<Seq<char>>,
    events: Seq<(Seq<char>, int, int)>,
    tree: ColorNode,
)
    requires
        forall|p: Seq<Seq<char>>| p.len() > 0 ==> !(#[trigger] spec_substitutable(tree, p)),
        forall|i: int| 0 <= i < events.len() ==> (#[trigger] events[i]).1 >= 1,
    ensures
        spec_patch(lines, events, tree) == unlines(lines),
{
    lemma_run_no_subst(lines, events, tree);
    assert(spec_patch(lines, events, tree) =~= unlines(lines));
}

/// Law (round-trip identity, on a whole text): when the configuration text
/// is joinable — it ends with a line feed and has no carriage-return line
/// ending — and no nonempty path resolves to a stringifiable leaf, the
/// patched text is the input, byte for byte.
pub proof fn lemma_round_trip_text(
    config: Seq<char>,
    events: Seq<(Seq<char>, int, int)>,
    tree: ColorNode,
)
    requires
        joinable(config),
        forall|p: Seq<Seq<char>>| p.len() > 0 ==> !(#[trigger] spec_substitutable(tree, p)),
        forall|i: int| 0 <= i < events.len() ==> (#[trigger] events[i]).1 >= 1,
    ensures
        spec_patch(spec_lines(config), events, tree) == config,
{
    lemma_round_trip(spec_lines(config), events, tree);
    lemma_unlines_lines(config);
}

/// Whether, at state `st`, a value event at `(line, col)` substitutes: the
/// line repeats the previous scalar's, the path resolves to a stringifiable
/// leaf, and the position lies within the source.
pub open spec fn substitutes_at(
    lines: Seq<Seq<char>>,
    tree: ColorNode,
    st: PatchState,
    line: int,
    col: int,
) -> bool {
    &&& line == st.last_line
    &&& spec_substitutable(tree, st.path)
    &&& 1 <= line <= lines.len()
    &&& 0 <= col <= lines[line - 1].len()
}

/// The replacement text a substitutable path yields.
pub open spec fn replacement_of(tree: ColorNode, p: Seq<Seq<char>>) -> Seq<char> {
    spec_stringify(spec_lookup(tree, p).unwrap()).unwrap()
}

/// Law (in-place rewriting, the core of idempotence): when every
/// substitution the scan makes writes exactly the text already standing on
/// its line — as on a configuration the same colorscheme was already
/// applied to — and none reaches back before the copy cursor, the patched
/// text is the source joined back unchanged.
pub proof fn lemma_applied_identity(
    lines: Seq<Seq<char>>,
    events: Seq<(Seq<char>, int, int)>,
    tree: ColorNode,
)
    requires
        forall|k: int|
            0 <= k < events.len() ==> {
                let st = #[trigger] run(lines, tree, events.take(k));
                let ev = events[k];
                substitutes_at(lines, tree, st, ev.1, ev.2) ==> {
                    &&& st.line_index <= ev.1 - 1
                    &&& lines[ev.1 - 1] == lines[ev.1 - 1].take(ev.2) + replacement_of(
                        tree,
                        st.path,
                    )
                }
            },
    ensures
        spec_patch(lines, events, tree) == unlines(lines),
        0 <= run(lines, tree, events).line_index <= lines.len(),
        run(lines, tree, events).out == copy_lines(
            lines,
            0,
            run(lines, tree, events).line_index,
        ),
    decreases events.len(),
{
    if events.len() == 0 {
        assert(copy_lines(lines, 0, 0) =~= Seq::<char>::empty());
        assert(spec_patch(lines, events, tree) =~= unlines(lines));
    } else {
        let shorter = events.drop_last();
        assert forall|k: int|
            0 <= k < shorter.len() implies {
                let st = #[trigger] run(lines, tree, shorter.take(k));
                let ev = shorter[k];
                substitutes_at(lines, tree, st, ev.1, ev.2) ==> {
                    &&& st.line_index <= ev.1 - 1
                    &&& lines[ev.1 - 1] == lines[ev.1 - 1].take(ev.2) + replacement_of(
                        tree,
                        st.path,
                    )
                }
            } by {
            assert(shorter.take(k) =~= events.take(k));
            assert(shorter[k] == events[k]);
            assert(run(lines, tree, events.take(k)) == run(lines, tree, shorter.take(k)));
        }
        lemma_applied_identity(lines, shorter, tree);
        let prev = run(lines, tree, shorter);
        let ev = events.last();
        let k0 = events.len() - 1;
        assert(events.take(k0) =~= shorter);
        assert(run(lines, tree, events.take(k0)) == prev);
        assert(events[k0] == ev);
        let fin = run(lines, tree, events);
        assert(fin == step(lines, tree, prev, ev));
        if ev.1 != prev.last_line {
            assert(fin.out == prev.out && fin.line_index == prev.line_index);
        } else {
            if substitutes_at(lines, tree, prev, ev.1, ev.2) {
                assert(prev.line_index <= ev.1 - 1);
                assert(lines[ev.1 - 1] == lines[ev.1 - 1].take(ev.2) + replacement_of(
                    tree,
                    prev.path,
                ));
                lemma_copy_lines_concat(lines, 0, prev.line_index, ev.1 - 1);
                lemma_copy_lines_snoc(lines, 0, ev.1 - 1);
                assert(fin.out =~= copy_lines(lines, 0, prev.line_index) + copy_lines(
                    lines,
                    prev.line_index,
                    ev.1 - 1,
                ) + lines[ev.1 - 1] + seq!['\n']);
                assert(fin.out =~= copy_lines(lines, 0, ev.1 - 1) + lines[ev.1 - 1]
                    + seq!['\n']);
                assert(fin.out == copy_lines(lines, 0, ev.1));
                assert(fin.line_index == ev.1);
            } else {
                assert(fin.out == prev.out && fin.line_index == prev.line_index);
            }
        }
        lemma_copy_lines_concat(lines, 0, fin.line_index, lines.len() as int);
        assert(spec_patch(lines, events, tree) == unlines(lines));
    }
}

/// Rewrites the source `lines` according to the scalar `events` and the
/// colorscheme `tree`, exactly as `spec_patch` describes.
pub fn patch_events(lines: &Vec<Vec<char>>, events: &Vec<ScalarEvent>, tree: &ColorValue) -> (out:
    Vec<char>)
    ensures
        out@ == spec_patch(lines_view(lines@), events_view(events@), tree.deep_view()),
{
    let ghost glines = lines_view(lines@);
    let ghost gtree = tree.deep_view();
    let ghost gevents = events_view(events@);

    let mut out: Vec<char> = Vec::new();
    let mut path: Vec<String> = Vec::new();
    let mut line_index: usize = 0;
    let mut last_line: usize = 0;
    let mut last_col: usize = 0;
    let mut k: usize = 0;

    proof {
        assert(gevents.take(0) =~= Seq::<(Seq<char>, int, int)>::empty());
        assert(path_view(path@) =~= Seq::<Seq<char>>::empty());
    }
    while k < events.len()
        invariant
            k <= events@.len(),
            glines == lines_view(lines@),
            gtree == tree.deep_view(),
            gevents == events_view(events@),
            line_index as int == run(glines, gtree, gevents.take(k as int)).line_index,
            path_view(path@) == run(glines, gtree, gevents.take(k as int)).path,
            last_line as int == run(glines, gtree, gevents.take(k as int)).last_line,
            last_col as int == run(glines, gtree, gevents.take(k as int)).last_col,
            out@ == run(glines, gtree, gevents.take(k as int)).out,
        decreases events@.len() - k,
    {
        let ghost st = run(glines, gtree, gevents.take(k as int));
        let ghost ev_g = gevents[k as int];
        proof {
            assert(gevents.take(k as int + 1).drop_last() =~= gevents.take(k as int));
            assert(gevents.take(k as int + 1).last() == ev_g);
        }
        let ev_line = events[k].line;
        let ev_col = events[k].col;
        if ev_line != last_line {
            if ev_col == last_col {
                let ghost p0 = path@;
                path.pop();
                proof {
                    if p0.len() > 0 {
                        assert(path_view(path@) =~= path_view(p0).drop_last());
                    }
                }
                let ghost p1 = path@;
                path.push(events[k].name.clone());
                proof {
                    assert(path_view(path@) =~= path_view(p1).push(ev_g.0));
                }
                last_line = ev_line;
                last_col = ev_col;
            } else if ev_col > last_col && ev_col - last_col == 2 {
                let ghost p1 = path@;
                path.push(events[k].name.clone());
                proof {
                    assert(path_view(path@) =~= path_view(p1).push(ev_g.0));
                }
                last_line = ev_line;
                last_col = ev_col;
            } else if ev_col < last_col {
                let depth = ev_col / 2;
                let ghost p0 = path@;
                proof {
                    assert(path_view(p0).take(p0.len() as int) =~= path_view(p0));
                }
                while path.len() > depth
                    invariant
                        path@.len() <= p0.len(),
                        p0.len() > depth ==> path@.len() >= depth,
                        p0.len() <= depth ==> path@ == p0,
                        path_view(path@) == path_view(p0).take(path@.len() as int),
                    decreases path@.len(),
                {
                    let ghost pb = path@;
                    path.pop();
                    proof {
                        assert(path_view(path@) =~= path_view(pb).drop_last());
                        assert(path_view(pb).drop_last() =~= path_view(p0).take(
                            path@.len() as int,
                        ));
                    }
                }
                proof {
                    if p0.len() > depth {
                        assert(path@.len() == depth);
                        assert(path_view(path@) =~= path_view(p0).take(depth as int));
                    } else {
                        assert(path_view(path@) =~= path_view(p0));
                    }
                }
                let ghost p1 = path@;
                path.push(events[k].name.clone());
                proof {
                    assert(path_view(path@) =~= path_view(p1).push(ev_g.0));
                }
                last_line = ev_line;
                last_col = ev_col;
            }
            proof {
                assert(run(glines, gtree, gevents.take(k as int + 1)) == step_key(
                    st,
                    ev_g.0,
                    ev_g.1,
                    ev_g.2,
                ));
            }
        } else {
            let found = lookup(tree, &path);
            match found {
                Some(node) => {
                    match stringify_chars(node) {
                        Some(rep) => {
                            if ev_line >= 1 && ev_line <= lines.len() && ev_col <= lines[ev_line
                                - 1].len() {
                                let ghost out0 = out@;
                                let mut li = line_index;
                                proof {
                                    assert(out@ =~= out0 + copy_lines(
                                        glines,
                                        line_index as int,
                                        li as int,
                                    ));
                                }
                                while li < ev_line - 1
                                    invariant
                                        glines == lines_view(lines@),
                                        ev_line >= 1 && ev_line <= lines@.len(),
                                        li >= line_index,
                                        li as int <= ev_line - 1 || li == line_index,
                                        out@ == out0 + copy_lines(
                                            glines,
                                            line_index as int,
                                            li as int,
                                        ),
                                    decreases ev_line - 1 - li,
                                {
                                    push_chars(&mut out, &lines[li]);
                                    out.push('\n');
                                    proof {
                                        lemma_copy_lines_snoc(glines, line_index as int, li as int);
                                        assert(out0 + copy_lines(
                                            glines,
                                            line_index as int,
                                            li as int,
                                        ) + glines[li as int] + seq!['\n'] =~= out0 + copy_lines(
                                            glines,
                                            line_index as int,
                                            li as int + 1,
                                        ));
                                    }
                                    li += 1;
                                }
                                proof {
                                    if (li as int) != ev_line - 1 {
                                        assert(copy_lines(glines, line_index as int, ev_line - 1)
                                            =~= Seq::<char>::empty());
                                        assert(copy_lines(glines, line_index as int, li as int)
                                            =~= Seq::<char>::empty());
                                    }
                                    assert(out@ == out0 + copy_lines(
                                        glines,
                                        line_index as int,
                                        ev_line - 1,
                                    ));
                                }
                                push_prefix(&mut out, &lines[ev_line - 1], ev_col);
                                push_chars(&mut out, &rep);
                                out.push('\n');
                                line_index = ev_line;
                                proof {
                                    assert(out@ =~= out0 + copy_lines(
                                        glines,
                                        st.line_index,
                                        ev_line - 1,
                                    ) + glines[ev_line - 1].take(ev_col as int) + spec_stringify(
                                        spec_lookup(gtree, st.path).unwrap(),
                                    ).unwrap() + seq!['\n']);
                                }
                            }
                        },
                        None => {},
                    }
                },
                None => {},
            }
            proof {
                assert(run(glines, gtree, gevents.take(k as int + 1)) == step_value(
                    glines,
                    gtree,
                    st,
                    ev_g.1,
                    ev_g.2,
                ));
            }
        }
        k += 1;
    }
    proof {
        assert(gevents.take(gevents.len() as int) =~= gevents);
    }
    let ghost fin = run(glines, gtree, gevents);
    let ghost out1 = out@;
    let mut li = line_index;
    proof {
        assert(out@ =~= out1 + copy_lines(glines, line_index as int, li as int));
    }
    while li < lines.len()
        invariant
            glines == lines_view(lines@),
            li >= line_index,
            li as int <= lines@.len() || li == line_index,
            out@ == out1 + copy_lines(glines, line_index as int, li as int),
        decreases lines@.len() - li,
    {
        push_chars(&mut out, &lines[li]);
        out.push('\n');
        proof {
            lemma_copy_lines_snoc(glines, line_index as int, li as int);
            assert(out1 + copy_lines(glines, line_index as int, li as int) + glines[li as int]
                + seq!['\n'] =~= out1 + copy_lines(glines, line_index as int, li as int + 1));
        }
        li += 1;
    }
    proof {
        if (li as int) != lines@.len() {
            assert(copy_lines(glines, line_index as int, lines@.len() as int) =~= Seq::<
                char,
            >::empty());
            assert(copy_lines(glines, line_index as int, li as int) =~= Seq::<char>::empty());
        }
        assert(out@ =~= fin.out + copy_lines(glines, fin.line_index, glines.len() as int));
    }
    out
}

/// Parses a colorscheme text into its first document's tree. Fails with
/// `Error::Parse` exactly when the text is not parsable YAML or holds no
/// document.
pub fn parse_colors(text: &str) -> (r: Result<ColorValue, Error>)
    ensures
        match yaml_docs_of(text@) {
            Some(docs) => if docs.len() > 0 {
                r matches Ok(t) && t.deep_view() == docs[0]
            } else {
                r matches Err(e) && e == Error::Parse
            },
            None => r matches Err(e) && e == Error::Parse,
        },
{
    match load_yaml_docs(text) {
        Some(mut docs) => {
            if docs.len() > 0 {
                let first = docs.remove(0);
                Ok(first)
            } else {
                Err(Error::Parse)
            }
        },
        None => Err(Error::Parse),
    }
}

/// Rewrites the configuration text `config` against the colorscheme `tree`.
/// Fails with `Error::Parse` exactly when `config` is not scannable YAML;
/// otherwise the result is the patched text of `spec_patch` over the
/// config's lines and scalar events.
pub fn patch_text(config: &str, tree: &ColorValue) -> (r: Result<String, Error>)
    ensures
        match scalar_scan_of(config@) {
            Some(events) => r matches Ok(s) && s@ == spec_patch(
                spec_lines(config@),
                events,
                tree.deep_view(),
            ),
            None => r matches Err(e) && e == Error::Parse,
        },
{
    match scan_scalars(config) {
        Some(events) => {
            let text = chars_of(config);
            let lines = split_lines(&text);
            let out = patch_events(&lines, &events, tree);
            Ok(string_from_chars(&out))
        },
        None => Err(Error::Parse),
    }
}

/// Applies the colorscheme text `scheme` onto the configuration text
/// `config`: the whole rewritten text, assembled before anything is written
/// anywhere. Fails with `Error::Parse` exactly when the scheme is not
/// parsable YAML or holds no document, or the config is not scannable YAML.
pub fn apply_text(config: &str, scheme: &str) -> (r: Result<String, Error>)
    ensures
        match yaml_docs_of(scheme@) {
            Some(docs) => if docs.len() > 0 {
                match scalar_scan_of(config@) {
                    Some(events) => r matches Ok(s) && s@ == spec_patch(
                        spec_lines(config@),
                        events,
                        docs[0],
                    ),
                    None => r matches Err(e) && e == Error::Parse,
                }
            } else {
                r matches Err(e) && e == Error::Parse
            },
            None => r matches Err(e) && e == Error::Parse,
        },
{
    let tree = match parse_colors(scheme) {
        Ok(t) => t,
        Err(e) => {
            return Err(e);
        },
    };
    patch_text(config, &tree)
}

} // verus!
