//! Properties of the tangle engine and the output assembler, proved
//! once and for all over their mathematical models.

use vstd::prelude::*;

use crate::parsing;
use crate::parsing::AnchorModel;
use crate::tangle::{
    apply_directive, assemble, assemble_full, clamped_add, emplace, find_label, flush_block,
    has_label, push_ordinary, render_block, run_file, run_files, run_lines, start_pass, step_line,
    tangle_spec, header_text, spaces, BlockModel, EngineModel, EntryModel, ErrorModel, FileModel,
    KnotModel, PassModel, TargetModel,
};

verus! {

/// Routing two sections to the front of the same anchor, one after the
/// other, leaves them in reverse order of arrival: the section routed
/// last stands first among the anchor's children, and the section
/// routed first stands nearest the children the anchor already had.
pub proof fn lemma_before_reverses(
    root: Seq<KnotModel>,
    table: Seq<EntryModel>,
    l: Seq<char>,
    s1: Seq<KnotModel>,
    s2: Seq<KnotModel>,
)
    requires
        has_label(table, l),
    ensures
        ({
            let idx = find_label(table, l);
            let r1 = emplace(root, table, TargetModel::Before(l), s1);
            let r2 = emplace(r1.0, r1.1, TargetModel::Before(l), s2);
            r2.0 == root && find_label(r1.1, l) == idx && r2.1[idx].node.tangled == s2 + s1
                + table[idx].node.tangled
        }),
{
    let idx = find_label(table, l);
    crate::tangle::lemma_find_label(table, l);
    let r1 = emplace(root, table, TargetModel::Before(l), s1);
    lemma_find_label_stable(table, r1.1, l);
    let r2 = emplace(r1.0, r1.1, TargetModel::Before(l), s2);
    assert(r2.1[idx].node.tangled =~= s2 + s1 + table[idx].node.tangled);
}

/// Routing two sections to the back of the same anchor, one after the
/// other, keeps them in order of arrival, after the children the
/// anchor already had.
pub proof fn lemma_after_keeps_order(
    root: Seq<KnotModel>,
    table: Seq<EntryModel>,
    l: Seq<char>,
    s1: Seq<KnotModel>,
    s2: Seq<KnotModel>,
)
    requires
        has_label(table, l),
    ensures
        ({
            let idx = find_label(table, l);
            let r1 = emplace(root, table, TargetModel::After(l), s1);
            let r2 = emplace(r1.0, r1.1, TargetModel::After(l), s2);
            r2.0 == root && find_label(r1.1, l) == idx && r2.1[idx].node.tangled
                == table[idx].node.tangled + s1 + s2
        }),
{
    let idx = find_label(table, l);
    crate::tangle::lemma_find_label(table, l);
    let r1 = emplace(root, table, TargetModel::After(l), s1);
    lemma_find_label_stable(table, r1.1, l);
    let r2 = emplace(r1.0, r1.1, TargetModel::After(l), s2);
    assert(r2.1[idx].node.tangled =~= table[idx].node.tangled + s1 + s2);
}

/// A table whose entries keep their labels entry for entry answers
/// every lookup at the same position.
proof fn lemma_find_label_stable(t1: Seq<EntryModel>, t2: Seq<EntryModel>, l: Seq<char>)
    requires
        t1.len() == t2.len(),
        forall|k: int| 0 <= k < t1.len() ==> t1[k].label == t2[k].label,
    ensures
        find_label(t2, l) == find_label(t1, l),
    decreases t1.len(),
{
    if t1.len() > 0 {
        assert(forall|k: int| 0 <= k < t1.drop_first().len() ==> t1.drop_first()[k]
            == t1[k + 1] && t2.drop_first()[k] == t2[k + 1]);
        lemma_find_label_stable(t1.drop_first(), t2.drop_first(), l);
    }
}

/// A `Before` or `After` directive naming a label no anchor carries
/// records exactly one missing-tag error, and otherwise acts exactly
/// as an `Insert` directive: the same routing of the closed section,
/// and the same `Insert` state for the lines that follow.
pub proof fn lemma_missing_tag_downgrades(
    st: PassModel,
    file: Seq<char>,
    lineno: int,
    ind: int,
    l: Seq<char>,
)
    requires
        !has_label(flush_block(st, file).table, l),
    ensures
        (apply_directive(st, file, lineno, ind, AnchorModel::Before(l)) == (PassModel {
            errors: apply_directive(st, file, lineno, ind, AnchorModel::Insert).errors.push(
                ErrorModel::MissingTag { file, lineno, tag: l },
            ),
            ..apply_directive(st, file, lineno, ind, AnchorModel::Insert)
        })),
        (apply_directive(st, file, lineno, ind, AnchorModel::After(l)) == (PassModel {
            errors: apply_directive(st, file, lineno, ind, AnchorModel::Insert).errors.push(
                ErrorModel::MissingTag { file, lineno, tag: l },
            ),
            ..apply_directive(st, file, lineno, ind, AnchorModel::Insert)
        })),
{
    let st1 = flush_block(st, file);
    let rt = emplace(st1.root, st1.table, st1.target, st1.section);
    lemma_emplace_keeps_labels(st1.root, st1.table, st1.target, st1.section);
    lemma_find_label_stable(st1.table, rt.1, l);
}

/// Routing a section never adds, removes or renames table entries.
pub proof fn lemma_emplace_keeps_labels(
    root: Seq<KnotModel>,
    table: Seq<EntryModel>,
    target: TargetModel,
    section: Seq<KnotModel>,
)
    ensures
        ({
            let rt = emplace(root, table, target, section);
            rt.1.len() == table.len() && forall|k: int| 0 <= k < table.len() ==> rt.1[k].label
                == table[k].label
        }),
{
    match target {
        TargetModel::Insert => {},
        TargetModel::Before(l) => {
            crate::tangle::lemma_find_label(table, l);
        },
        TargetModel::After(l) => {
            crate::tangle::lemma_find_label(table, l);
        },
    }
}

/// A `Label` directive reusing an existing name records exactly one
/// duplicate-anchor error, creates no node and plants no reference:
/// besides the error, it acts exactly as an `Insert` directive, and
/// the node already carrying the name keeps its children.
pub proof fn lemma_duplicate_label_ignored(
    st: PassModel,
    file: Seq<char>,
    lineno: int,
    ind: int,
    l: Seq<char>,
)
    requires
        has_label(flush_block(st, file).table, l),
    ensures
        (apply_directive(st, file, lineno, ind, AnchorModel::Label(l)) == (PassModel {
            errors: apply_directive(st, file, lineno, ind, AnchorModel::Insert).errors.push(
                ErrorModel::DuplicateAnchor { file, lineno, tag: l },
            ),
            ..apply_directive(st, file, lineno, ind, AnchorModel::Insert)
        })),
{
}

/// Resolving an anchor reference descends into the node's children
/// with the indentation increased by the node's own recorded
/// indentation: nested anchors accumulate indentation.
pub proof fn lemma_nested_indentation(
    fuel: nat,
    knots: Seq<KnotModel>,
    table: Seq<EntryModel>,
    indent: int,
    inside: bool,
    comment: Option<Seq<char>>,
)
    requires
        knots.len() > 0,
        knots[0] is Ref,
        has_label(table, knots[0]->Ref_0),
        fuel > 0,
    ensures
        ({
            let l = knots[0]->Ref_0;
            let idx = find_label(table, l);
            let node = table[idx].node;
            let sub = assemble(
                (fuel - 1) as nat,
                node.tangled,
                table.remove(idx),
                clamped_add(indent, node.indentation),
                true,
                comment,
            );
            let r = assemble(fuel, knots.drop_first(), sub.1, indent, inside, comment);
            assemble(fuel, knots, table, indent, inside, comment) == (sub.0 + r.0, r.1)
        }),
{
}

/// With a comment leader configured, a block emitted inside a resolved
/// anchor is preceded by exactly one provenance line, built from the
/// leader, the block's origin name, and the recorded number of its
/// first line; a block outside every anchor gets no such line.
pub proof fn lemma_provenance_header(b: BlockModel, indent: int, leader: Seq<char>)
    ensures
        (render_block(b, indent, true, Some(leader)) == seq![
            spaces(indent) + header_text(leader, b.file, b.lineno),
        ] + b.lines.map_values(|l: Seq<char>| spaces(indent) + l)),
        (render_block(b, indent, false, Some(leader)) == b.lines.map_values(
            |l: Seq<char>| spaces(indent) + l,
        )),
        (render_block(b, indent, true, None) == b.lines.map_values(
            |l: Seq<char>| spaces(indent) + l,
        )),
{
}

} // verus!

verus! {

/// The lines of every block of a knot sequence, in order; references
/// contribute nothing.
pub open spec fn flat_lines(knots: Seq<KnotModel>) -> Seq<Seq<char>>
    decreases knots.len(),
{
    if knots.len() == 0 {
        Seq::empty()
    } else {
        (match knots[0] {
            KnotModel::Block(b) => b.lines,
            KnotModel::Ref(_) => Seq::empty(),
        }) + flat_lines(knots.drop_first())
    }
}

/// Every knot of the sequence is a block.
pub open spec fn all_blocks(knots: Seq<KnotModel>) -> bool {
    forall|k: int| 0 <= k < knots.len() ==> knots[k] is Block
}

/// A line that decodes and is at most an `Insert` directive: it either
/// holds no anchor candidate at all, or its candidate parses to
/// `Insert`.
pub open spec fn insert_only_line(l: Option<Seq<char>>) -> bool {
    l matches Some(text) && (parsing::has_candidate(text)
        ==> parsing::parse_text_spec(parsing::match_text(text)) == Some(AnchorModel::Insert))
}

/// A line that decodes and holds no anchor candidate at all.
pub open spec fn plain_line(l: Option<Seq<char>>) -> bool {
    l matches Some(text) && !parsing::has_candidate(text)
}

/// The ordinary lines among the first `upto` lines of a stream: those
/// holding no anchor candidate.
pub open spec fn ordinary_lines(lines: Seq<Option<Seq<char>>>, upto: int) -> Seq<Seq<char>>
    decreases upto,
{
    if upto <= 0 {
        Seq::empty()
    } else {
        ordinary_lines(lines, upto - 1) + (match lines[upto - 1] {
            Some(t) => if !parsing::has_candidate(t) {
                seq![t]
            } else {
                Seq::empty()
            },
            None => Seq::empty(),
        })
    }
}

/// The ordinary lines of the first `upto` streams, in stream order.
pub open spec fn ordinary_all(fs: Seq<FileModel>, upto: int) -> Seq<Seq<char>>
    decreases upto,
{
    if upto <= 0 {
        Seq::empty()
    } else {
        ordinary_all(fs, upto - 1) + ordinary_lines(
            fs[upto - 1].lines,
            fs[upto - 1].lines.len() as int,
        )
    }
}

/// Flattening distributes over concatenation of knot sequences.
proof fn lemma_flat_append(a: Seq<KnotModel>, b: Seq<KnotModel>)
    ensures
        flat_lines(a + b) == flat_lines(a) + flat_lines(b),
    decreases a.len(),
{
    if a.len() == 0 {
        assert(a + b =~= b);
        assert(flat_lines(a) + flat_lines(b) =~= flat_lines(b));
    } else {
        assert((a + b).drop_first() =~= a.drop_first() + b);
        lemma_flat_append(a.drop_first(), b);
        assert((a + b)[0] == a[0]);
        assert(flat_lines(a + b) =~= flat_lines(a) + flat_lines(b));
    }
}

/// Assembling a root sequence made only of blocks emits exactly their
/// lines, unindented and without provenance headers, and leaves the
/// table untouched.
proof fn lemma_assemble_root_blocks(
    fuel: nat,
    knots: Seq<KnotModel>,
    table: Seq<EntryModel>,
    comment: Option<Seq<char>>,
)
    requires
        all_blocks(knots),
    ensures
        (assemble(fuel, knots, table, 0, false, comment) == (flat_lines(knots), table)),
    decreases knots.len(),
{
    if knots.len() > 0 {
        assert(knots[0] is Block);
        let b = knots[0]->Block_0;
        assert(all_blocks(knots.drop_first()));
        lemma_assemble_root_blocks(fuel, knots.drop_first(), table, comment);
        assert(render_block(b, 0, false, comment) =~~= b.lines) by {
            let body = b.lines.map_values(|l: Seq<char>| spaces(0) + l);
            assert forall|i: int| 0 <= i < b.lines.len() implies body[i] == b.lines[i] by {
                assert(spaces(0) + b.lines[i] =~= b.lines[i]);
            }
            assert(body =~~= b.lines);
        }
        assert(assemble(fuel, knots, table, 0, false, comment).0 =~= flat_lines(knots));
    }
}

/// While every line is at most an `Insert` directive, the engine only
/// grows the root with blocks whose lines are exactly the ordinary
/// lines read so far; the table, the errors and the routing target are
/// untouched.
proof fn lemma_run_lines_insert_only(
    st0: PassModel,
    f: Seq<char>,
    lines: Seq<Option<Seq<char>>>,
    k: int,
)
    requires
        0 <= k <= lines.len(),
        st0.target is Insert,
        st0.section == Seq::<KnotModel>::empty(),
        st0.block == Seq::<Seq<char>>::empty(),
        all_blocks(st0.root),
        forall|j: int| 0 <= j < lines.len() ==> insert_only_line(#[trigger] lines[j]),
    ensures
        ({
            let st = run_lines(st0, f, lines, k);
            st.table == st0.table && st.errors == st0.errors && st.target is Insert
                && st.section == Seq::<KnotModel>::empty() && all_blocks(st.root) && flat_lines(
                st.root,
            ) + st.block == flat_lines(st0.root) + ordinary_lines(lines, k)
        }),
    decreases k,
{
    if k == 0 {
        assert(flat_lines(st0.root) + st0.block =~= flat_lines(st0.root) + ordinary_lines(
            lines,
            0,
        ));
    } else {
        lemma_run_lines_insert_only(st0, f, lines, k - 1);
        let st = run_lines(st0, f, lines, k - 1);
        let st2 = run_lines(st0, f, lines, k);
        assert(insert_only_line(lines[k - 1]));
        let text = lines[k - 1]->0;
        if !parsing::has_candidate(text) {
            assert(st2 == push_ordinary(st, k, text));
            assert(flat_lines(st2.root) + st2.block =~= (flat_lines(st.root) + st.block).push(
                text,
            ));
            assert(ordinary_lines(lines, k) == ordinary_lines(lines, k - 1) + seq![text]);
            assert((flat_lines(st0.root) + ordinary_lines(lines, k - 1)).push(text)
                =~= flat_lines(st0.root) + ordinary_lines(lines, k));
        } else {
            assert(st2 == apply_directive(st, f, k, crate::tangle::indent_of(text), AnchorModel::Insert));
            let st1 = flush_block(st, f);
            assert(ordinary_lines(lines, k) =~= ordinary_lines(lines, k - 1));
            if st.block.len() == 0 {
                assert(st1 == st);
                assert(st1.root + st1.section =~= st1.root);
                assert(flat_lines(st2.root) + st2.block =~= flat_lines(st0.root)
                    + ordinary_lines(lines, k));
            } else {
                let bm = BlockModel { lines: st.block, file: f, lineno: st.block_lineno };
                let sec = st1.section;
                assert(sec =~= seq![KnotModel::Block(bm)]);
                lemma_flat_append(st1.root, sec);
                assert(flat_lines(sec) == bm.lines + flat_lines(sec.drop_first())) by {
                    assert(sec[0] == KnotModel::Block(bm));
                }
                assert(sec.drop_first() =~= Seq::<KnotModel>::empty());
                assert(flat_lines(sec) =~= bm.lines);
                assert(all_blocks(st2.root)) by {
                    assert(forall|j: int| 0 <= j < st1.root.len() ==> (st1.root + sec)[j]
                        == st1.root[j]);
                    assert((st1.root + sec)[st1.root.len() as int] == KnotModel::Block(bm));
                }
                assert(flat_lines(st2.root) =~= flat_lines(st1.root) + bm.lines);
                assert(flat_lines(st2.root) + st2.block =~= flat_lines(st0.root)
                    + ordinary_lines(lines, k));
            }
        }
    }
}

/// Running one stream whose every line is at most an `Insert`
/// directive appends its ordinary lines, as blocks, to the root, and
/// touches nothing else.
proof fn lemma_run_file_insert_only(eng: EngineModel, f: FileModel)
    requires
        all_blocks(eng.root),
        forall|j: int| 0 <= j < f.lines.len() ==> insert_only_line(#[trigger] f.lines[j]),
    ensures
        ({
            let m = run_file(eng, f);
            m.table == eng.table && m.errors == eng.errors && all_blocks(m.root) && flat_lines(
                m.root,
            ) == flat_lines(eng.root) + ordinary_lines(f.lines, f.lines.len() as int)
        }),
{
    let st0 = start_pass(eng);
    lemma_run_lines_insert_only(st0, f.name, f.lines, f.lines.len() as int);
    let st = run_lines(st0, f.name, f.lines, f.lines.len() as int);
    let st1 = flush_block(st, f.name);
    let m = run_file(eng, f);
    if st.block.len() == 0 {
        assert(st1 == st);
        assert(st1.root + st1.section =~= st1.root);
        assert(flat_lines(m.root) =~= flat_lines(eng.root) + ordinary_lines(
            f.lines,
            f.lines.len() as int,
        ));
    } else {
        let bm = BlockModel { lines: st.block, file: f.name, lineno: st.block_lineno };
        let sec = st1.section;
        assert(sec =~= seq![KnotModel::Block(bm)]);
        lemma_flat_append(st1.root, sec);
        assert(flat_lines(sec) == bm.lines + flat_lines(sec.drop_first())) by {
            assert(sec[0] == KnotModel::Block(bm));
        }
        assert(sec.drop_first() =~= Seq::<KnotModel>::empty());
        assert(flat_lines(sec) =~= bm.lines);
        assert(all_blocks(m.root)) by {
            assert(forall|j: int| 0 <= j < st1.root.len() ==> (st1.root + sec)[j]
                == st1.root[j]);
            assert((st1.root + sec)[st1.root.len() as int] == KnotModel::Block(bm));
        }
        assert(flat_lines(m.root) =~= flat_lines(eng.root) + ordinary_lines(
            f.lines,
            f.lines.len() as int,
        ));
    }
}

/// Running streams whose every line is at most an `Insert` directive
/// gathers exactly their ordinary lines, in stream order, as blocks at
/// the root; no anchors and no errors arise.
proof fn lemma_run_files_insert_only(fs: Seq<FileModel>, upto: int)
    requires
        0 <= upto <= fs.len(),
        forall|i: int, j: int| 0 <= i < fs.len() && 0 <= j < fs[i].lines.len()
            ==> insert_only_line(#[trigger] fs[i].lines[j]),
    ensures
        ({
            let m = run_files(fs, upto);
            m.table == Seq::<EntryModel>::empty() && m.errors == Seq::<ErrorModel>::empty()
                && all_blocks(m.root) && flat_lines(m.root) == ordinary_all(fs, upto)
        }),
    decreases upto,
{
    if upto == 0 {
        assert(flat_lines(Seq::<KnotModel>::empty()) =~= ordinary_all(fs, 0));
    } else {
        lemma_run_files_insert_only(fs, upto - 1);
        lemma_run_file_insert_only(run_files(fs, upto - 1), fs[upto - 1]);
    }
}

/// `Insert` directives are transparent: where every line of every
/// stream is at most an `Insert` directive, the output is exactly the
/// ordinary lines, in stream order, unchanged; no errors arise. In
/// particular, dropping or adding lines that parse to `Insert` leaves
/// the output untouched.
pub proof fn theorem_insert_transparent(fs: Seq<FileModel>, comment: Option<Seq<char>>)
    requires
        forall|i: int, j: int| 0 <= i < fs.len() && 0 <= j < fs[i].lines.len()
            ==> insert_only_line(#[trigger] fs[i].lines[j]),
    ensures
        ({
            let m = tangle_spec(fs);
            m.errors == Seq::<ErrorModel>::empty() && assemble_full(m.root, m.table, comment)
                == ordinary_all(fs, fs.len() as int)
        }),
{
    lemma_run_files_insert_only(fs, fs.len() as int);
    let m = tangle_spec(fs);
    lemma_assemble_root_blocks(m.table.len() as nat, m.root, m.table, comment);
}

/// The lines of a stream that holds no anchor candidate anywhere, in
/// order.
pub open spec fn decoded_lines(lines: Seq<Option<Seq<char>>>) -> Seq<Seq<char>> {
    lines.map_values(|l: Option<Seq<char>>| l->0)
}

/// The lines of the first `upto` streams, in stream order.
pub open spec fn decoded_all(fs: Seq<FileModel>, upto: int) -> Seq<Seq<char>>
    decreases upto,
{
    if upto <= 0 {
        Seq::empty()
    } else {
        decoded_all(fs, upto - 1) + decoded_lines(fs[upto - 1].lines)
    }
}

/// In a stream with no anchor candidates, the ordinary lines are all
/// the lines.
proof fn lemma_ordinary_is_all(lines: Seq<Option<Seq<char>>>, upto: int)
    requires
        0 <= upto <= lines.len(),
        forall|j: int| 0 <= j < lines.len() ==> plain_line(#[trigger] lines[j]),
    ensures
        ordinary_lines(lines, upto) == decoded_lines(lines).subrange(0, upto),
    decreases upto,
{
    if upto == 0 {
        assert(ordinary_lines(lines, 0) =~= decoded_lines(lines).subrange(0, 0));
    } else {
        lemma_ordinary_is_all(lines, upto - 1);
        assert(plain_line(lines[upto - 1]));
        assert(ordinary_lines(lines, upto) =~= decoded_lines(lines).subrange(0, upto));
    }
}

/// With no anchor directives anywhere, the output is the concatenation
/// of all input lines, in stream order, unchanged, and no errors
/// arise.
pub proof fn theorem_no_directives_concat(fs: Seq<FileModel>, comment: Option<Seq<char>>)
    requires
        forall|i: int, j: int| 0 <= i < fs.len() && 0 <= j < fs[i].lines.len()
            ==> plain_line(#[trigger] fs[i].lines[j]),
    ensures
        ({
            let m = tangle_spec(fs);
            m.errors == Seq::<ErrorModel>::empty() && assemble_full(m.root, m.table, comment)
                == decoded_all(fs, fs.len() as int)
        }),
{
    assert forall|i: int, j: int| 0 <= i < fs.len() && 0 <= j < fs[i].lines.len()
        implies insert_only_line(#[trigger] fs[i].lines[j]) by {
        assert(plain_line(fs[i].lines[j]));
    }
    theorem_insert_transparent(fs, comment);
    assert(ordinary_all(fs, fs.len() as int) == decoded_all(fs, fs.len() as int)) by {
        lemma_ordinary_eq_decoded(fs, fs.len() as int);
    }
}

/// Stream by stream, ordinary lines and all lines agree where no
/// candidates occur.
proof fn lemma_ordinary_eq_decoded(fs: Seq<FileModel>, upto: int)
    requires
        0 <= upto <= fs.len(),
        forall|i: int, j: int| 0 <= i < fs.len() && 0 <= j < fs[i].lines.len()
            ==> plain_line(#[trigger] fs[i].lines[j]),
    ensures
        ordinary_all(fs, upto) == decoded_all(fs, upto),
    decreases upto,
{
    if upto > 0 {
        lemma_ordinary_eq_decoded(fs, upto - 1);
        let lines = fs[upto - 1].lines;
        lemma_ordinary_is_all(lines, lines.len() as int);
        assert(decoded_lines(lines).subrange(0, lines.len() as int) =~= decoded_lines(lines));
        assert(ordinary_all(fs, upto) =~= decoded_all(fs, upto));
    }
}

} // verus!

verus! {

/// No two table entries carry the same label.
pub open spec fn distinct_labels(t: Seq<EntryModel>) -> bool {
    forall|i: int, j: int| 0 <= i < j < t.len() ==> t[i].label != t[j].label
}

/// Every reference among the knots names a label the table carries.
pub open spec fn refs_ok(ks: Seq<KnotModel>, t: Seq<EntryModel>) -> bool {
    forall|k: int| 0 <= k < ks.len() ==> ((#[trigger] ks[k]) is Ref ==> has_label(t, ks[k]->Ref_0))
}

/// The forest invariant: each label maps to at most one anchor node,
/// and every reference in the root or in any anchor's children has a
/// corresponding table entry.
pub open spec fn forest_wf(root: Seq<KnotModel>, t: Seq<EntryModel>) -> bool {
    distinct_labels(t) && refs_ok(root, t) && (forall|e: int| 0 <= e < t.len()
        ==> refs_ok(#[trigger] t[e].node.tangled, t))
}

/// The invariant during a pass: the forest is well-formed, the open
/// section's references resolve, and a front or back routing target
/// names a label the table carries.
pub open spec fn pass_wf(st: PassModel) -> bool {
    forest_wf(st.root, st.table) && refs_ok(st.section, st.table) && (match st.target {
        TargetModel::Insert => true,
        TargetModel::Before(l) => has_label(st.table, l),
        TargetModel::After(l) => has_label(st.table, l),
    })
}

/// A lookup that succeeds still succeeds, at the same position, after
/// an entry is appended.
proof fn lemma_has_label_push(t: Seq<EntryModel>, e: EntryModel, l: Seq<char>)
    requires
        has_label(t, l),
    ensures
        has_label(t.push(e), l),
        find_label(t.push(e), l) == find_label(t, l),
{
    crate::tangle::lemma_find_label(t, l);
    let i = find_label(t, l);
    assert(forall|k: int| 0 <= k < t.len() ==> t.push(e)[k] == t[k]);
    crate::tangle::lemma_find_label_at(t.push(e), l, i);
}

/// A label no entry carries is found exactly at a newly appended entry
/// that carries it.
proof fn lemma_fresh_label_push(t: Seq<EntryModel>, e: EntryModel)
    requires
        !has_label(t, e.label),
    ensures
        find_label(t.push(e), e.label) == t.len(),
        has_label(t.push(e), e.label),
{
    crate::tangle::lemma_find_label(t, e.label);
    assert(forall|k: int| 0 <= k < t.len() ==> t.push(e)[k] == t[k]);
    crate::tangle::lemma_find_label_at(t.push(e), e.label, t.len() as int);
}

/// Routing a section whose references resolve preserves the forest
/// invariant, provided a front or back target names a present label.
proof fn lemma_emplace_wf(
    root: Seq<KnotModel>,
    table: Seq<EntryModel>,
    target: TargetModel,
    section: Seq<KnotModel>,
)
    requires
        forest_wf(root, table),
        refs_ok(section, table),
    ensures
        ({
            let rt = emplace(root, table, target, section);
            forest_wf(rt.0, rt.1) && rt.1.len() == table.len() && (forall|k: int|
                0 <= k < table.len() ==> rt.1[k].label == table[k].label)
        }),
{
    let rt = emplace(root, table, target, section);
    lemma_emplace_keeps_labels(root, table, target, section);
    assert forall|l2: Seq<char>| has_label(table, l2) implies has_label(rt.1, l2) by {
        lemma_find_label_stable(table, rt.1, l2);
    }
    match target {
        TargetModel::Insert => {
            assert(refs_ok(rt.0, rt.1)) by {
                assert(forall|k: int| 0 <= k < root.len() ==> (root + section)[k] == root[k]);
                assert(forall|k: int| root.len() <= k < root.len() + section.len()
                    ==> (root + section)[k] == section[k - root.len()]);
            }
        },
        TargetModel::Before(l) => {
            crate::tangle::lemma_find_label(table, l);
            let idx = find_label(table, l);
            if idx >= 0 {
                let merged = section + table[idx].node.tangled;
                assert(refs_ok(merged, rt.1)) by {
                    assert(forall|k: int| 0 <= k < section.len() ==> merged[k] == section[k]);
                    assert(forall|k: int| section.len() <= k < merged.len() ==> merged[k]
                        == table[idx].node.tangled[k - section.len()]);
                }
                assert(forall|e: int| 0 <= e < rt.1.len() && e != idx ==> rt.1[e]
                    == table[e]);
            }
        },
        TargetModel::After(l) => {
            crate::tangle::lemma_find_label(table, l);
            let idx = find_label(table, l);
            if idx >= 0 {
                let merged = table[idx].node.tangled + section;
                assert(refs_ok(merged, rt.1)) by {
                    assert(forall|k: int| 0 <= k < table[idx].node.tangled.len() ==> merged[k]
                        == table[idx].node.tangled[k]);
                    assert(forall|k: int| table[idx].node.tangled.len() <= k < merged.len()
                        ==> merged[k] == section[k - table[idx].node.tangled.len()]);
                }
                assert(forall|e: int| 0 <= e < rt.1.len() && e != idx ==> rt.1[e]
                    == table[e]);
            }
        },
    }
}

/// Closing the block keeps the pass invariant: a block is no
/// reference.
proof fn lemma_flush_wf(st: PassModel, f: Seq<char>)
    requires
        pass_wf(st),
    ensures
        pass_wf(flush_block(st, f)),
        flush_block(st, f).table == st.table,
{
    let st1 = flush_block(st, f);
    if st.block.len() > 0 {
        assert(forall|k: int| 0 <= k < st.section.len() ==> st1.section[k] == st.section[k]);
    }
}

/// Acting on any parsed directive preserves the pass invariant.
proof fn lemma_directive_wf(st: PassModel, f: Seq<char>, lineno: int, ind: int, a: AnchorModel)
    requires
        pass_wf(st),
    ensures
        pass_wf(apply_directive(st, f, lineno, ind, a)),
{
    lemma_flush_wf(st, f);
    let st1 = flush_block(st, f);
    match a {
        AnchorModel::Insert => {
            lemma_emplace_wf(st1.root, st1.table, st1.target, st1.section);
        },
        AnchorModel::Before(l) => {
            lemma_emplace_wf(st1.root, st1.table, st1.target, st1.section);
        },
        AnchorModel::After(l) => {
            lemma_emplace_wf(st1.root, st1.table, st1.target, st1.section);
        },
        AnchorModel::Label(l) => {
            if has_label(st1.table, l) {
                lemma_emplace_wf(st1.root, st1.table, st1.target, st1.section);
            } else {
                let entry = EntryModel {
                    label: l,
                    node: crate::tangle::NodeModel { indentation: ind, tangled: Seq::empty() },
                };
                let table1 = st1.table.push(entry);
                let section1 = st1.section.push(KnotModel::Ref(l));
                assert(forall|k: int| 0 <= k < st1.table.len() ==> table1[k] == st1.table[k]);
                lemma_fresh_label_push(st1.table, entry);
                crate::tangle::lemma_find_label(st1.table, l);
                assert(distinct_labels(table1));
                assert forall|l2: Seq<char>| has_label(st1.table, l2) implies has_label(
                    table1,
                    l2,
                ) by {
                    lemma_has_label_push(st1.table, entry, l2);
                }
                assert(refs_ok(st1.root, table1));
                assert(forall|e: int| 0 <= e < table1.len() ==> refs_ok(
                    table1[e].node.tangled,
                    table1,
                ));
                assert(refs_ok(section1, table1)) by {
                    assert(forall|k: int| 0 <= k < st1.section.len() ==> section1[k]
                        == st1.section[k]);
                    assert(section1[st1.section.len() as int] == KnotModel::Ref(l));
                }
                lemma_emplace_wf(st1.root, table1, st1.target, section1);
            }
        },
    }
}

/// Processing one line preserves the pass invariant.
proof fn lemma_step_wf(st: PassModel, f: Seq<char>, lineno: int, line: Option<Seq<char>>)
    requires
        pass_wf(st),
    ensures
        pass_wf(step_line(st, f, lineno, line)),
{
    match line {
        None => {},
        Some(text) => {
            if parsing::has_candidate(text) {
                let m = parsing::match_text(text);
                match parsing::parse_text_spec(m) {
                    None => {},
                    Some(a) => {
                        lemma_directive_wf(st, f, lineno, crate::tangle::indent_of(text), a);
                    },
                }
            }
        },
    }
}

/// Processing any number of lines preserves the pass invariant.
proof fn lemma_run_lines_wf(st0: PassModel, f: Seq<char>, lines: Seq<Option<Seq<char>>>, k: int)
    requires
        pass_wf(st0),
        k >= 0,
    ensures
        pass_wf(run_lines(st0, f, lines, k)),
    decreases k,
{
    if k > 0 {
        lemma_run_lines_wf(st0, f, lines, k - 1);
        lemma_step_wf(run_lines(st0, f, lines, k - 1), f, k, lines[k - 1]);
    }
}

/// Running one whole stream preserves the forest invariant.
proof fn lemma_run_file_wf(eng: EngineModel, f: FileModel)
    requires
        forest_wf(eng.root, eng.table),
    ensures
        forest_wf(run_file(eng, f).root, run_file(eng, f).table),
{
    let st0 = start_pass(eng);
    lemma_run_lines_wf(st0, f.name, f.lines, f.lines.len() as int);
    let st = run_lines(st0, f.name, f.lines, f.lines.len() as int);
    lemma_flush_wf(st, f.name);
    let st1 = flush_block(st, f.name);
    lemma_emplace_wf(st1.root, st1.table, st1.target, st1.section);
}

/// The forest the engine builds is well-formed: each label maps to at
/// most one anchor node, and every reference planted anywhere in the
/// forest has a corresponding table entry, established when the
/// reference was created.
pub proof fn theorem_forest_wf(fs: Seq<FileModel>)
    ensures
        forest_wf(tangle_spec(fs).root, tangle_spec(fs).table),
{
    lemma_run_files_wf(fs, fs.len() as int);
}

/// Running any number of streams preserves the forest invariant.
proof fn lemma_run_files_wf(fs: Seq<FileModel>, upto: int)
    requires
        upto >= 0,
    ensures
        forest_wf(run_files(fs, upto).root, run_files(fs, upto).table),
    decreases upto,
{
    if upto > 0 {
        lemma_run_files_wf(fs, upto - 1);
        lemma_run_file_wf(run_files(fs, upto - 1), fs[upto - 1]);
    }
}

} // verus!
