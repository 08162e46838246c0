//! The tangle engine and the output assembler.
//!
//! The engine consumes a sequence of named input streams, classifies
//! their lines into blocks using the anchor grammar, and builds a forest
//! of blocks and anchor references, accumulating non-fatal errors. The
//! assembler then resolves the forest into one flat, re-indented
//! sequence of output lines.

use vstd::prelude::*;

use crate::list::List;
use crate::parsing;
use crate::parsing::AnchorModel;

verus! {

/// Options governing output assembly. When `comment` holds a leader
/// string, every block emitted from inside a resolved anchor is
/// preceded by a provenance comment built from that leader.
pub struct OutputOptions {
    pub comment: Option<String>,
}

impl Default for OutputOptions {
    fn default() -> (r: Self)
        ensures
            r.comment is None,
    {
        OutputOptions { comment: None }
    }
}

/// One named input stream, already decoded line by line. A line that
/// could not be decoded as text is `None`; the engine records an error
/// for it and drops it.
pub struct SourceFile {
    pub name: String,
    pub lines: Vec<Option<String>>,
}

/// The mathematical value of a `SourceFile`.
#[verifier::ext_equal]
pub struct FileModel {
    pub name: Seq<char>,
    pub lines: Seq<Option<Seq<char>>>,
}

impl View for SourceFile {
    type V = FileModel;

    open spec fn view(&self) -> FileModel {
        FileModel {
            name: self.name@,
            lines: self.lines@.map_values(|l: Option<String>| match l {
                Some(s) => Some(s@),
                None => None,
            }),
        }
    }
}

/// A maximal run of consecutive ordinary lines taken from one origin,
/// tagged with the origin's display name and the 1-based line number of
/// the block's first line.
pub struct Block {
    pub lines: Vec<String>,
    pub file: String,
    pub lineno: usize,
}

/// The mathematical value of a `Block`.
#[verifier::ext_equal]
pub struct BlockModel {
    pub lines: Seq<Seq<char>>,
    pub file: Seq<char>,
    pub lineno: int,
}

impl View for Block {
    type V = BlockModel;

    open spec fn view(&self) -> BlockModel {
        BlockModel {
            lines: self.lines@.map_values(|l: String| l@),
            file: self.file@,
            lineno: self.lineno as int,
        }
    }
}

/// A child of the root sequence or of an anchor node: either a block of
/// lines, or a reference to an anchor node by its label.
pub enum Knot {
    Block(Block),
    Ref(String),
}

/// The mathematical value of a `Knot`.
#[verifier::ext_equal]
pub enum KnotModel {
    Block(BlockModel),
    Ref(Seq<char>),
}

impl View for Knot {
    type V = KnotModel;

    open spec fn view(&self) -> KnotModel {
        match self {
            Knot::Block(b) => KnotModel::Block(b@),
            Knot::Ref(l) => KnotModel::Ref(l@),
        }
    }
}

/// A named insertion point: the column of the first non-whitespace
/// character on the line that declared it, and its ordered children.
pub struct AnchorNode {
    pub indentation: usize,
    pub tangled: List<Knot>,
}

/// The mathematical value of an `AnchorNode`.
#[verifier::ext_equal]
pub struct NodeModel {
    pub indentation: int,
    pub tangled: Seq<KnotModel>,
}

impl View for AnchorNode {
    type V = NodeModel;

    open spec fn view(&self) -> NodeModel {
        NodeModel {
            indentation: self.indentation as int,
            tangled: self.tangled@.map_values(|k: Knot| k@),
        }
    }
}

/// One entry of the label table: a label and its anchor node. Labels
/// are unique across the table.
pub struct AnchorEntry {
    pub label: String,
    pub node: AnchorNode,
}

/// The mathematical value of an `AnchorEntry`.
#[verifier::ext_equal]
pub struct EntryModel {
    pub label: Seq<char>,
    pub node: NodeModel,
}

impl View for AnchorEntry {
    type V = EntryModel;

    open spec fn view(&self) -> EntryModel {
        EntryModel { label: self.label@, node: self.node@ }
    }
}

/// A non-fatal condition found while tangling. Each names the origin,
/// the 1-based line number, and, where there is one, the offending
/// anchor text or label.
pub enum TangleError {
    /// A line could not be decoded as text; it was dropped.
    NotUtf8 { file: String, lineno: usize },
    /// Text matched the coarse anchor pattern but failed formal
    /// parsing; the line was kept as ordinary text.
    MalformedAnchor { file: String, lineno: usize, anchor: String },
    /// A `Label` directive reused an existing name; the second
    /// declaration was discarded.
    DuplicateAnchor { file: String, lineno: usize, tag: String },
    /// A `Before`/`After` directive referenced an unknown label; its
    /// effect was downgraded to `Insert`.
    MissingTag { file: String, lineno: usize, tag: String },
}

/// The mathematical value of a `TangleError`.
#[verifier::ext_equal]
pub enum ErrorModel {
    NotUtf8 { file: Seq<char>, lineno: int },
    MalformedAnchor { file: Seq<char>, lineno: int, anchor: Seq<char> },
    DuplicateAnchor { file: Seq<char>, lineno: int, tag: Seq<char> },
    MissingTag { file: Seq<char>, lineno: int, tag: Seq<char> },
}

impl View for TangleError {
    type V = ErrorModel;

    open spec fn view(&self) -> ErrorModel {
        match self {
            TangleError::NotUtf8 { file, lineno } => ErrorModel::NotUtf8 {
                file: file@,
                lineno: *lineno as int,
            },
            TangleError::MalformedAnchor { file, lineno, anchor } => ErrorModel::MalformedAnchor {
                file: file@,
                lineno: *lineno as int,
                anchor: anchor@,
            },
            TangleError::DuplicateAnchor { file, lineno, tag } => ErrorModel::DuplicateAnchor {
                file: file@,
                lineno: *lineno as int,
                tag: tag@,
            },
            TangleError::MissingTag { file, lineno, tag } => ErrorModel::MissingTag {
                file: file@,
                lineno: *lineno as int,
                tag: tag@,
            },
        }
    }
}

/// Where terminated blocks are routed: to the root sequence, or to the
/// front or back of a named anchor's children.
pub enum OutputTarget {
    Insert,
    Before(String),
    After(String),
}

/// The mathematical value of an `OutputTarget`.
#[verifier::ext_equal]
pub enum TargetModel {
    Insert,
    Before(Seq<char>),
    After(Seq<char>),
}

impl View for OutputTarget {
    type V = TargetModel;

    open spec fn view(&self) -> TargetModel {
        match self {
            OutputTarget::Insert => TargetModel::Insert,
            OutputTarget::Before(l) => TargetModel::Before(l@),
            OutputTarget::After(l) => TargetModel::After(l@),
        }
    }
}

/// The mathematical values of a sequence of knots.
pub open spec fn knot_views(ks: Seq<Knot>) -> Seq<KnotModel> {
    ks.map_values(|k: Knot| k@)
}

/// The mathematical values of the label table.
pub open spec fn entry_views(es: Seq<AnchorEntry>) -> Seq<EntryModel> {
    es.map_values(|e: AnchorEntry| e@)
}

/// The mathematical values of the error list.
pub open spec fn error_views(es: Seq<TangleError>) -> Seq<ErrorModel> {
    es.map_values(|e: TangleError| e@)
}

/// The mathematical values of a line list.
pub open spec fn line_views(ls: Seq<String>) -> Seq<Seq<char>> {
    ls.map_values(|l: String| l@)
}

/// The mathematical values of the input streams.
pub open spec fn file_views(fs: Seq<SourceFile>) -> Seq<FileModel> {
    fs.map_values(|f: SourceFile| f@)
}

/// The index of `l` in the table, or `-1` where no entry carries it.
pub open spec fn find_label(t: Seq<EntryModel>, l: Seq<char>) -> int
    decreases t.len(),
{
    if t.len() == 0 {
        -1
    } else if t[0].label == l {
        0
    } else {
        let r = find_label(t.drop_first(), l);
        if r < 0 {
            -1
        } else {
            1 + r
        }
    }
}

/// Whether some entry of the table carries the label `l`.
pub open spec fn has_label(t: Seq<EntryModel>, l: Seq<char>) -> bool {
    find_label(t, l) >= 0
}

/// `find_label` returns either `-1` or the first index whose entry
/// carries the label.
pub proof fn lemma_find_label(t: Seq<EntryModel>, l: Seq<char>)
    ensures
        find_label(t, l) == -1 || (0 <= find_label(t, l) < t.len() && t[find_label(t, l)].label == l),
        find_label(t, l) == -1 ==> forall|k: int| 0 <= k < t.len() ==> t[k].label != l,
        forall|k: int| 0 <= k < find_label(t, l) ==> t[k].label != l,
    decreases t.len(),
{
    if t.len() != 0 {
        lemma_find_label(t.drop_first(), l);
        assert(forall|k: int| 0 <= k < t.drop_first().len() ==> t.drop_first()[k] == t[k + 1]);
        if t[0].label != l {
            let r = find_label(t.drop_first(), l);
            if r == -1 {
                assert forall|k: int| 0 <= k < t.len() implies t[k].label != l by {
                    if k > 0 {
                        assert(t.drop_first()[k - 1] == t[k]);
                    }
                }
            } else {
                assert forall|k: int| 0 <= k < find_label(t, l) implies t[k].label != l by {
                    if k > 0 {
                        assert(t.drop_first()[k - 1] == t[k]);
                    }
                }
            }
        }
    }
}

/// The engine's persistent state: the root sequence, the label table,
/// and the errors gathered so far.
#[verifier::ext_equal]
pub struct EngineModel {
    pub root: Seq<KnotModel>,
    pub table: Seq<EntryModel>,
    pub errors: Seq<ErrorModel>,
}

/// The whole engine state while one stream is processed: the persistent
/// state plus the routing target, the open section, and the block being
/// accumulated.
#[verifier::ext_equal]
pub struct PassModel {
    pub root: Seq<KnotModel>,
    pub table: Seq<EntryModel>,
    pub errors: Seq<ErrorModel>,
    pub target: TargetModel,
    pub section: Seq<KnotModel>,
    pub block: Seq<Seq<char>>,
    pub block_lineno: int,
}

/// Route a finished section to the routing target: appended to the
/// root, or moved to the front or the back of the named anchor's
/// children. A target naming an absent label drops the section (the
/// engine never produces such a target).
pub open spec fn emplace(
    root: Seq<KnotModel>,
    table: Seq<EntryModel>,
    target: TargetModel,
    section: Seq<KnotModel>,
) -> (Seq<KnotModel>, Seq<EntryModel>) {
    match target {
        TargetModel::Insert => (root + section, table),
        TargetModel::Before(l) => {
            let idx = find_label(table, l);
            if idx >= 0 {
                let node = table[idx].node;
                (
                    root,
                    table.update(
                        idx,
                        EntryModel {
                            label: l,
                            node: NodeModel {
                                indentation: node.indentation,
                                tangled: section + node.tangled,
                            },
                        },
                    ),
                )
            } else {
                (root, table)
            }
        },
        TargetModel::After(l) => {
            let idx = find_label(table, l);
            if idx >= 0 {
                let node = table[idx].node;
                (
                    root,
                    table.update(
                        idx,
                        EntryModel {
                            label: l,
                            node: NodeModel {
                                indentation: node.indentation,
                                tangled: node.tangled + section,
                            },
                        },
                    ),
                )
            } else {
                (root, table)
            }
        },
    }
}

/// A character the indentation scan treats as whitespace.
pub open spec fn is_space(c: char) -> bool {
    c == ' ' || c == '\t' || c == '\r' || c == '\n' || c == '\x0b' || c == '\x0c'
}

/// The first non-whitespace position at or after `i`, or `0` where
/// only whitespace remains.
pub open spec fn indent_from(s: Seq<char>, i: int) -> int
    decreases s.len() - i when 0 <= i <= s.len()
{
    if i >= s.len() {
        0
    } else if !is_space(s[i]) {
        i
    } else {
        indent_from(s, i + 1)
    }
}

/// The column of the first non-whitespace character of the line, or
/// `0` for an all-whitespace line.
pub open spec fn indent_of(s: Seq<char>) -> int {
    indent_from(s, 0)
}

/// Close the block being accumulated: a non-empty block joins the open
/// section; an empty block is never materialized.
pub open spec fn flush_block(st: PassModel, file: Seq<char>) -> PassModel {
    if st.block.len() == 0 {
        st
    } else {
        PassModel {
            section: st.section.push(
                KnotModel::Block(
                    BlockModel { lines: st.block, file, lineno: st.block_lineno },
                ),
            ),
            block: Seq::empty(),
            ..st
        }
    }
}

/// Append an ordinary line to the block being accumulated, recording
/// the line number of the block's first line.
pub open spec fn push_ordinary(st: PassModel, lineno: int, text: Seq<char>) -> PassModel {
    PassModel {
        block: st.block.push(text),
        block_lineno: if st.block.len() == 0 {
            lineno
        } else {
            st.block_lineno
        },
        ..st
    }
}

/// Act on a parsed directive: close the block, route the open section,
/// and set the next routing target. `Before`/`After` naming an unknown
/// label record an error and fall back to `Insert`; a `Label` reusing
/// an existing name records an error and leaves the old node untouched;
/// a fresh `Label` creates a node and plants a reference to it at the
/// routing target in effect.
pub open spec fn apply_directive(
    st: PassModel,
    file: Seq<char>,
    lineno: int,
    ind: int,
    a: AnchorModel,
) -> PassModel {
    let st1 = flush_block(st, file);
    match a {
        AnchorModel::Insert => {
            let rt = emplace(st1.root, st1.table, st1.target, st1.section);
            PassModel {
                root: rt.0,
                table: rt.1,
                target: TargetModel::Insert,
                section: Seq::empty(),
                ..st1
            }
        },
        AnchorModel::Before(l) => {
            let rt = emplace(st1.root, st1.table, st1.target, st1.section);
            if has_label(rt.1, l) {
                PassModel {
                    root: rt.0,
                    table: rt.1,
                    target: TargetModel::Before(l),
                    section: Seq::empty(),
                    ..st1
                }
            } else {
                PassModel {
                    root: rt.0,
                    table: rt.1,
                    errors: st1.errors.push(ErrorModel::MissingTag { file, lineno, tag: l }),
                    target: TargetModel::Insert,
                    section: Seq::empty(),
                    ..st1
                }
            }
        },
        AnchorModel::After(l) => {
            let rt = emplace(st1.root, st1.table, st1.target, st1.section);
            if has_label(rt.1, l) {
                PassModel {
                    root: rt.0,
                    table: rt.1,
                    target: TargetModel::After(l),
                    section: Seq::empty(),
                    ..st1
                }
            } else {
                PassModel {
                    root: rt.0,
                    table: rt.1,
                    errors: st1.errors.push(ErrorModel::MissingTag { file, lineno, tag: l }),
                    target: TargetModel::Insert,
                    section: Seq::empty(),
                    ..st1
                }
            }
        },
        AnchorModel::Label(l) => {
            if has_label(st1.table, l) {
                let rt = emplace(st1.root, st1.table, st1.target, st1.section);
                PassModel {
                    root: rt.0,
                    table: rt.1,
                    errors: st1.errors.push(ErrorModel::DuplicateAnchor { file, lineno, tag: l }),
                    target: TargetModel::Insert,
                    section: Seq::empty(),
                    ..st1
                }
            } else {
                let table1 = st1.table.push(
                    EntryModel {
                        label: l,
                        node: NodeModel { indentation: ind, tangled: Seq::empty() },
                    },
                );
                let section1 = st1.section.push(KnotModel::Ref(l));
                let rt = emplace(st1.root, table1, st1.target, section1);
                PassModel {
                    root: rt.0,
                    table: rt.1,
                    target: TargetModel::Insert,
                    section: Seq::empty(),
                    ..st1
                }
            }
        },
    }
}

/// Process one line of a stream: an undecodable line records an error
/// and is dropped; a line with no anchor candidate joins the block; a
/// candidate that fails to parse records an error and the line is kept
/// as ordinary text; a parsed directive acts on the engine state.
pub open spec fn step_line(
    st: PassModel,
    file: Seq<char>,
    lineno: int,
    line: Option<Seq<char>>,
) -> PassModel {
    match line {
        None => PassModel {
            errors: st.errors.push(ErrorModel::NotUtf8 { file, lineno }),
            ..st
        },
        Some(text) => {
            if !parsing::has_candidate(text) {
                push_ordinary(st, lineno, text)
            } else {
                let m = parsing::match_text(text);
                match parsing::parse_text_spec(m) {
                    None => push_ordinary(
                        PassModel {
                            errors: st.errors.push(
                                ErrorModel::MalformedAnchor { file, lineno, anchor: m },
                            ),
                            ..st
                        },
                        lineno,
                        text,
                    ),
                    Some(a) => apply_directive(st, file, lineno, indent_of(text), a),
                }
            }
        },
    }
}

/// Fold `step_line` over the first `upto` lines of a stream; line
/// numbers are 1-based.
pub open spec fn run_lines(
    st: PassModel,
    file: Seq<char>,
    lines: Seq<Option<Seq<char>>>,
    upto: int,
) -> PassModel
    decreases upto,
{
    if upto <= 0 {
        st
    } else {
        step_line(run_lines(st, file, lines, upto - 1), file, upto, lines[upto - 1])
    }
}

/// The engine state at the start of a stream: routing target `Insert`,
/// empty section, empty block.
pub open spec fn start_pass(eng: EngineModel) -> PassModel {
    PassModel {
        root: eng.root,
        table: eng.table,
        errors: eng.errors,
        target: TargetModel::Insert,
        section: Seq::empty(),
        block: Seq::empty(),
        block_lineno: 1,
    }
}

/// The end of a stream closes the block and routes the open section.
pub open spec fn finish_pass(st: PassModel, file: Seq<char>) -> EngineModel {
    let st1 = flush_block(st, file);
    let rt = emplace(st1.root, st1.table, st1.target, st1.section);
    EngineModel { root: rt.0, table: rt.1, errors: st1.errors }
}

/// Run one whole stream through the engine.
pub open spec fn run_file(eng: EngineModel, f: FileModel) -> EngineModel {
    finish_pass(run_lines(start_pass(eng), f.name, f.lines, f.lines.len() as int), f.name)
}

/// The engine state before any stream: everything empty.
pub open spec fn engine_init() -> EngineModel {
    EngineModel { root: Seq::empty(), table: Seq::empty(), errors: Seq::empty() }
}

/// Run the first `upto` streams, in order, through the engine.
pub open spec fn run_files(fs: Seq<FileModel>, upto: int) -> EngineModel
    decreases upto,
{
    if upto <= 0 {
        engine_init()
    } else {
        run_file(run_files(fs, upto - 1), fs[upto - 1])
    }
}

/// The forest the engine builds from the given streams.
pub open spec fn tangle_spec(fs: Seq<FileModel>) -> EngineModel {
    run_files(fs, fs.len() as int)
}

} // verus!

verus! {

/// A whitespace character, as `is_space` describes it.
fn space_char(c: char) -> (r: bool)
    ensures
        r == is_space(c),
{
    c == ' ' || c == '\t' || c == '\r' || c == '\n' || c == '\x0b' || c == '\x0c'
}

/// Skipping a prefix of whitespace does not change where the first
/// non-whitespace character is found.
proof fn lemma_indent_from(s: Seq<char>, j: int, i: int)
    requires
        0 <= j <= i <= s.len(),
        forall|k: int| j <= k < i ==> is_space(s[k]),
    ensures
        indent_from(s, j) == indent_from(s, i),
    decreases i - j,
{
    if j < i {
        assert(is_space(s[j]));
        lemma_indent_from(s, j + 1, i);
    }
}

/// Index of first non-whitespace character, or `0` where there is
/// none.
pub fn indentation_level(line: &str) -> (r: usize)
    ensures
        r as int == indent_of(line@),
{
    let n = line.unicode_len();
    let mut i: usize = 0;
    while i < n && space_char(line.get_char(i))
        invariant
            i <= n,
            n == line@.len(),
            forall|k: int| 0 <= k < i ==> is_space(line@[k]),
        decreases n - i,
    {
        i = i + 1;
    }
    proof {
        lemma_indent_from(line@, 0, i as int);
    }
    if i < n {
        i
    } else {
        0
    }
}

/// `find_label` names the first entry carrying the label.
pub proof fn lemma_find_label_at(t: Seq<EntryModel>, l: Seq<char>, i: int)
    requires
        0 <= i < t.len(),
        t[i].label == l,
        forall|k: int| 0 <= k < i ==> t[k].label != l,
    ensures
        find_label(t, l) == i,
    decreases i,
{
    if i > 0 {
        assert(t[0].label != l);
        assert(forall|k: int| 0 <= k < i - 1 ==> t.drop_first()[k] == t[k + 1]);
        lemma_find_label_at(t.drop_first(), l, i - 1);
    }
}

/// Where no entry carries the label, `find_label` says so.
pub proof fn lemma_find_label_none(t: Seq<EntryModel>, l: Seq<char>)
    requires
        forall|k: int| 0 <= k < t.len() ==> t[k].label != l,
    ensures
        find_label(t, l) == -1,
    decreases t.len(),
{
    if t.len() > 0 {
        assert(forall|k: int| 0 <= k < t.drop_first().len() ==> t.drop_first()[k] == t[k + 1]);
        lemma_find_label_none(t.drop_first(), l);
    }
}

/// Find the first table entry carrying `label`.
fn find_entry(table: &Vec<AnchorEntry>, label: &String) -> (r: Option<usize>)
    ensures
        (r matches Some(i) ==> i < table@.len()
            && find_label(entry_views(table@), label@) == i as int),
        (r is None ==> find_label(entry_views(table@), label@) == -1),
{
    let n = table.len();
    let mut i: usize = 0;
    while i < n
        invariant
            i <= n,
            n == table@.len(),
            forall|k: int| 0 <= k < i ==> entry_views(table@)[k].label != label@,
        decreases n - i,
    {
        if table[i].label == *label {
            proof {
                lemma_find_label_at(entry_views(table@), label@, i as int);
            }
            return Some(i);
        }
        i = i + 1;
    }
    proof {
        lemma_find_label_none(entry_views(table@), label@);
    }
    None
}

/// Route the open section to the routing target, leaving it empty: to
/// the back of the root, or to the front or back of the named anchor's
/// children. A target naming an absent label drops the section; the
/// engine never produces such a target.
fn emplace_section(
    target: &OutputTarget,
    section: &mut List<Knot>,
    root: &mut List<Knot>,
    table: &mut Vec<AnchorEntry>,
)
    ensures
        final(section)@ == Seq::<Knot>::empty(),
        ({
            let rt = emplace(
                knot_views(old(root)@),
                entry_views(old(table)@),
                target@,
                knot_views(old(section)@),
            );
            knot_views(final(root)@) == rt.0 && entry_views(final(table)@) == rt.1
        }),
{
    match target {
        OutputTarget::Insert => {
            root.append_back(section);
            assert(knot_views(root@) =~= knot_views(old(root)@) + knot_views(old(section)@));
            assert(entry_views(table@) =~= entry_views(old(table)@));
        },
        OutputTarget::Before(l) => {
            match find_entry(table, l) {
                Some(i) => {
                    let mut entry = table.remove(i);
                    entry.node.tangled.append_front(section);
                    table.insert(i, entry);
                    proof {
                        let ot = entry_views(old(table)@);
                        let nt = entry_views(table@);
                        lemma_find_label(ot, l@);
                        assert(ot[i as int].label == l@);
                        let upd = EntryModel {
                            label: l@,
                            node: NodeModel {
                                indentation: ot[i as int].node.indentation,
                                tangled: knot_views(old(section)@) + ot[i as int].node.tangled,
                            },
                        };
                        assert(entry@.node.tangled =~= knot_views(old(section)@)
                            + ot[i as int].node.tangled);
                        assert(entry@ == upd);
                        assert forall|k: int| 0 <= k < nt.len() implies
                            nt[k] == ot.update(i as int, upd)[k] by {
                            if k < i as int {
                                assert(table@[k] == old(table)@[k]);
                            } else if k == i as int {
                                assert(table@[k] == entry);
                            } else {
                                assert(table@[k] == old(table)@[k]);
                            }
                        }
                        assert(nt =~= ot.update(i as int, upd));
                    }
                    assert(knot_views(root@) =~= knot_views(old(root)@));
                },
                None => {
                    *section = List::new();
                    assert(knot_views(root@) =~= knot_views(old(root)@));
                    assert(entry_views(table@) =~= entry_views(old(table)@));
                },
            }
        },
        OutputTarget::After(l) => {
            match find_entry(table, l) {
                Some(i) => {
                    let mut entry = table.remove(i);
                    entry.node.tangled.append_back(section);
                    table.insert(i, entry);
                    proof {
                        let ot = entry_views(old(table)@);
                        let nt = entry_views(table@);
                        lemma_find_label(ot, l@);
                        assert(ot[i as int].label == l@);
                        let upd = EntryModel {
                            label: l@,
                            node: NodeModel {
                                indentation: ot[i as int].node.indentation,
                                tangled: ot[i as int].node.tangled + knot_views(old(section)@),
                            },
                        };
                        assert(entry@.node.tangled =~= ot[i as int].node.tangled
                            + knot_views(old(section)@));
                        assert(entry@ == upd);
                        assert forall|k: int| 0 <= k < nt.len() implies
                            nt[k] == ot.update(i as int, upd)[k] by {
                            if k < i as int {
                                assert(table@[k] == old(table)@[k]);
                            } else if k == i as int {
                                assert(table@[k] == entry);
                            } else {
                                assert(table@[k] == old(table)@[k]);
                            }
                        }
                        assert(nt =~= ot.update(i as int, upd));
                    }
                    assert(knot_views(root@) =~= knot_views(old(root)@));
                },
                None => {
                    *section = List::new();
                    assert(knot_views(root@) =~= knot_views(old(root)@));
                    assert(entry_views(table@) =~= entry_views(old(table)@));
                },
            }
        },
    }
}

} // verus!

verus! {

/// Close the block being accumulated, as `flush_block` describes: a
/// non-empty block joins the open section and the buffer is emptied.
fn flush_block_exec(
    filename: &String,
    section: &mut List<Knot>,
    block_lines: &mut Vec<String>,
    block_lineno: usize,
)
    ensures
        ({
            let st = PassModel {
                root: Seq::empty(),
                table: Seq::empty(),
                errors: Seq::empty(),
                target: TargetModel::Insert,
                section: knot_views(old(section)@),
                block: line_views(old(block_lines)@),
                block_lineno: block_lineno as int,
            };
            let st1 = flush_block(st, filename@);
            knot_views(final(section)@) == st1.section && line_views(final(block_lines)@)
                == st1.block
        }),
{
    if block_lines.len() > 0 {
        let mut lines: Vec<String> = Vec::new();
        core::mem::swap(&mut lines, block_lines);
        let b = Block { lines, file: filename.clone(), lineno: block_lineno };
        section.push_back(Knot::Block(b));
        assert(line_views(block_lines@) =~= Seq::<Seq<char>>::empty());
        assert(knot_views(section@) =~= knot_views(old(section)@).push(
            KnotModel::Block(
                BlockModel {
                    lines: line_views(old(block_lines)@),
                    file: filename@,
                    lineno: block_lineno as int,
                },
            ),
        ));
    }
}

} // verus!

verus! {

/// The mathematical value of one read line: `None` where decoding
/// failed.
pub open spec fn opt_line_view(l: Option<String>) -> Option<Seq<char>> {
    match l {
        Some(s) => Some(s@),
        None => None,
    }
}

/// Process one line of a stream, exactly as `step_line` describes.
fn step_line_exec(
    filename: &String,
    lineno: usize,
    line: &Option<String>,
    root: &mut List<Knot>,
    table: &mut Vec<AnchorEntry>,
    errors: &mut Vec<TangleError>,
    target: &mut OutputTarget,
    section: &mut List<Knot>,
    block_lines: &mut Vec<String>,
    block_lineno: &mut usize,
)
    ensures
        ({
            let st = PassModel {
                root: knot_views(old(root)@),
                table: entry_views(old(table)@),
                errors: error_views(old(errors)@),
                target: old(target)@,
                section: knot_views(old(section)@),
                block: line_views(old(block_lines)@),
                block_lineno: *old(block_lineno) as int,
            };
            let st2 = step_line(st, filename@, lineno as int, opt_line_view(*line));
            knot_views(final(root)@) == st2.root && entry_views(final(table)@) == st2.table
                && error_views(final(errors)@) == st2.errors && final(target)@ == st2.target
                && knot_views(final(section)@) == st2.section
                && line_views(final(block_lines)@) == st2.block
                && *final(block_lineno) as int == st2.block_lineno
        }),
{
    let ghost st0 = PassModel {
        root: knot_views(root@),
        table: entry_views(table@),
        errors: error_views(errors@),
        target: target@,
        section: knot_views(section@),
        block: line_views(block_lines@),
        block_lineno: *block_lineno as int,
    };
    match line {
        None => {
            errors.push(TangleError::NotUtf8 { file: filename.clone(), lineno });
            proof {
                assert(error_views(errors@) =~= st0.errors.push(
                    ErrorModel::NotUtf8 { file: filename@, lineno: lineno as int },
                ));
            }
        },
        Some(text) => {
            let found = parsing::might_be_anchor(text.as_str());
            match found {
                None => {
                    if block_lines.len() == 0 {
                        *block_lineno = lineno;
                    }
                    block_lines.push(text.clone());
                    proof {
                        assert(line_views(block_lines@) =~= st0.block.push(text@));
                    }
                },
                Some(m) => {
                    let parsed = parsing::parse(m.as_str());
                    proof {
                        assert(m@ == parsing::match_text(text@));
                    }
                    match parsed {
                        Err(_) => {
                            errors.push(
                                TangleError::MalformedAnchor {
                                    file: filename.clone(),
                                    lineno,
                                    anchor: m,
                                },
                            );
                            if block_lines.len() == 0 {
                                *block_lineno = lineno;
                            }
                            block_lines.push(text.clone());
                            proof {
                                assert(error_views(errors@) =~= st0.errors.push(
                                    ErrorModel::MalformedAnchor {
                                        file: filename@,
                                        lineno: lineno as int,
                                        anchor: parsing::match_text(text@),
                                    },
                                ));
                                assert(line_views(block_lines@) =~= st0.block.push(text@));
                            }
                        },
                        Ok(anchor) => {
                            flush_block_exec(filename, section, block_lines, *block_lineno);
                            let ghost st1 = flush_block(st0, filename@);
                            proof {
                                assert(knot_views(section@) == st1.section);
                                assert(line_views(block_lines@) == st1.block);
                            }
                            match anchor {
                                parsing::Anchor::Insert => {
                                    emplace_section(target, section, root, table);
                                    *target = OutputTarget::Insert;
                                },
                                parsing::Anchor::Before(l) => {
                                    emplace_section(target, section, root, table);
                                    match find_entry(table, &l) {
                                        Some(_) => {
                                            *target = OutputTarget::Before(l);
                                        },
                                        None => {
                                            errors.push(
                                                TangleError::MissingTag {
                                                    file: filename.clone(),
                                                    lineno,
                                                    tag: l,
                                                },
                                            );
                                            *target = OutputTarget::Insert;
                                            proof {
                                                assert(error_views(errors@) =~= st1.errors.push(
                                                    ErrorModel::MissingTag {
                                                        file: filename@,
                                                        lineno: lineno as int,
                                                        tag: anchor@->Before_0,
                                                    },
                                                ));
                                            }
                                        },
                                    }
                                },
                                parsing::Anchor::After(l) => {
                                    emplace_section(target, section, root, table);
                                    match find_entry(table, &l) {
                                        Some(_) => {
                                            *target = OutputTarget::After(l);
                                        },
                                        None => {
                                            errors.push(
                                                TangleError::MissingTag {
                                                    file: filename.clone(),
                                                    lineno,
                                                    tag: l,
                                                },
                                            );
                                            *target = OutputTarget::Insert;
                                            proof {
                                                assert(error_views(errors@) =~= st1.errors.push(
                                                    ErrorModel::MissingTag {
                                                        file: filename@,
                                                        lineno: lineno as int,
                                                        tag: anchor@->After_0,
                                                    },
                                                ));
                                            }
                                        },
                                    }
                                },
                                parsing::Anchor::Label(l) => {
                                    match find_entry(table, &l) {
                                        Some(_) => {
                                            errors.push(
                                                TangleError::DuplicateAnchor {
                                                    file: filename.clone(),
                                                    lineno,
                                                    tag: l,
                                                },
                                            );
                                            emplace_section(target, section, root, table);
                                            *target = OutputTarget::Insert;
                                            proof {
                                                assert(error_views(errors@) =~= st1.errors.push(
                                                    ErrorModel::DuplicateAnchor {
                                                        file: filename@,
                                                        lineno: lineno as int,
                                                        tag: anchor@->Label_0,
                                                    },
                                                ));
                                            }
                                        },
                                        None => {
                                            let ind = indentation_level(text.as_str());
                                            table.push(
                                                AnchorEntry {
                                                    label: l.clone(),
                                                    node: AnchorNode {
                                                        indentation: ind,
                                                        tangled: List::new(),
                                                    },
                                                },
                                            );
                                            section.push_back(Knot::Ref(l));
                                            proof {
                                                assert(entry_views(table@) =~~= st1.table.push(
                                                    EntryModel {
                                                        label: anchor@->Label_0,
                                                        node: NodeModel {
                                                            indentation: indent_of(text@),
                                                            tangled: Seq::empty(),
                                                        },
                                                    },
                                                ));
                                                assert(knot_views(section@) =~= st1.section.push(
                                                    KnotModel::Ref(anchor@->Label_0),
                                                ));
                                            }
                                            emplace_section(target, section, root, table);
                                            *target = OutputTarget::Insert;
                                        },
                                    }
                                },
                            }
                        },
                    }
                },
            }
        },
    }
}

} // verus!

verus! {

/// Run every input stream through the engine, producing the forest:
/// the root sequence, the label table, and the errors gathered.
fn tangle_forest(inputs: &Vec<SourceFile>) -> (r: (List<Knot>, Vec<AnchorEntry>, Vec<TangleError>))
    ensures
        ({
            let m = tangle_spec(file_views(inputs@));
            knot_views(r.0@) == m.root && entry_views(r.1@) == m.table && error_views(r.2@)
                == m.errors
        }),
{
    let mut root: List<Knot> = List::new();
    let mut table: Vec<AnchorEntry> = Vec::new();
    let mut errors: Vec<TangleError> = Vec::new();
    let nf = inputs.len();
    let mut fi: usize = 0;
    proof {
        assert(knot_views(root@) =~= Seq::<KnotModel>::empty());
        assert(entry_views(table@) =~= Seq::<EntryModel>::empty());
        assert(error_views(errors@) =~= Seq::<ErrorModel>::empty());
    }
    while fi < nf
        invariant
            fi <= nf,
            nf == inputs@.len(),
            ({
                let m = run_files(file_views(inputs@), fi as int);
                knot_views(root@) == m.root && entry_views(table@) == m.table && error_views(
                    errors@,
                ) == m.errors
            }),
        decreases nf - fi,
    {
        let file = &inputs[fi];
        let filename = file.name.clone();
        let mut target = OutputTarget::Insert;
        let mut section: List<Knot> = List::new();
        let mut block_lines: Vec<String> = Vec::new();
        let mut block_lineno: usize = 1;
        let nl = file.lines.len();
        let ghost eng0 = run_files(file_views(inputs@), fi as int);
        let ghost f = file_views(inputs@)[fi as int];
        proof {
            assert(f == file@);
            assert(f.lines.len() == nl);
            assert(filename@ == f.name);
            assert(knot_views(section@) =~= Seq::<KnotModel>::empty());
            assert(line_views(block_lines@) =~= Seq::<Seq<char>>::empty());
        }
        let mut li: usize = 0;
        while li < nl
            invariant
                li <= nl,
                fi < inputs@.len(),
                f == file_views(inputs@)[fi as int],
                f == file@,
                nl == f.lines.len(),
                eng0 == run_files(file_views(inputs@), fi as int),
                filename@ == f.name,
                ({
                    let st = run_lines(start_pass(eng0), f.name, f.lines, li as int);
                    knot_views(root@) == st.root && entry_views(table@) == st.table
                        && error_views(errors@) == st.errors && target@ == st.target
                        && knot_views(section@) == st.section && line_views(block_lines@)
                        == st.block && block_lineno as int == st.block_lineno
                }),
            decreases nl - li,
        {
            let lineno = li + 1;
            proof {
                assert(opt_line_view(file.lines@[li as int]) == f.lines[li as int]);
            }
            step_line_exec(
                &filename,
                lineno,
                &file.lines[li],
                &mut root,
                &mut table,
                &mut errors,
                &mut target,
                &mut section,
                &mut block_lines,
                &mut block_lineno,
            );
            li = lineno;
        }
        flush_block_exec(&filename, &mut section, &mut block_lines, block_lineno);
        emplace_section(&target, &mut section, &mut root, &mut table);
        fi = fi + 1;
        proof {
            let st = run_lines(start_pass(eng0), f.name, f.lines, nl as int);
            let m2 = run_files(file_views(inputs@), fi as int);
            assert(m2 == finish_pass(st, f.name));
        }
    }
    proof {
        assert(file_views(inputs@).len() == inputs@.len());
    }
    (root, table, errors)
}

} // verus!

verus! {

/// `n` spaces.
pub open spec fn spaces(n: int) -> Seq<char>
    decreases n,
{
    if n <= 0 {
        Seq::empty()
    } else {
        spaces(n - 1).push(' ')
    }
}

/// The character for one decimal digit.
pub open spec fn digit_char(d: int) -> char {
    if d == 0 { '0' }
    else if d == 1 { '1' }
    else if d == 2 { '2' }
    else if d == 3 { '3' }
    else if d == 4 { '4' }
    else if d == 5 { '5' }
    else if d == 6 { '6' }
    else if d == 7 { '7' }
    else if d == 8 { '8' }
    else { '9' }
}

/// The decimal digits of a non-negative number, most significant
/// first.
pub open spec fn dec_str(n: int) -> Seq<char>
    decreases n when n >= 0
{
    if n < 10 {
        seq![digit_char(n)]
    } else {
        dec_str(n / 10).push(digit_char(n % 10))
    }
}

/// The provenance comment for a block: the configured leader, the
/// origin's name in single quotes, and the 1-based number of the
/// block's first line.
pub open spec fn header_text(leader: Seq<char>, file: Seq<char>, lineno: int) -> Seq<char> {
    leader + seq![' ', '\''] + file + seq!['\'', ',', ' ', 'l', 'i', 'n', 'e', ' '] + dec_str(
        lineno,
    )
}

/// Add two widths, stopping at the machine limit.
pub open spec fn clamped_add(a: int, b: int) -> int {
    if a + b <= usize::MAX {
        a + b
    } else {
        usize::MAX as int
    }
}

/// The configured comment leader, if any.
pub open spec fn comment_view(c: Option<String>) -> Option<Seq<char>> {
    match c {
        Some(s) => Some(s@),
        None => None,
    }
}

/// The output lines of one block: each line prefixed with the current
/// indentation, preceded by a provenance comment where a leader is
/// configured and the block stands inside a resolved anchor.
pub open spec fn render_block(
    b: BlockModel,
    indent: int,
    inside: bool,
    comment: Option<Seq<char>>,
) -> Seq<Seq<char>> {
    let body = b.lines.map_values(|l: Seq<char>| spaces(indent) + l);
    match comment {
        Some(leader) => if inside {
            seq![spaces(indent) + header_text(leader, b.file, b.lineno)] + body
        } else {
            body
        },
        None => body,
    }
}

/// Walk a knot sequence depth first, rendering blocks and resolving
/// each anchor reference by removing its node from the table and
/// descending into its children with the indentation increased by the
/// node's own. Returns the output lines and what is left of the table.
/// A reference whose label is absent, or met with no fuel left, is
/// skipped; the engine's forests never produce either.
pub open spec fn assemble(
    fuel: nat,
    knots: Seq<KnotModel>,
    table: Seq<EntryModel>,
    indent: int,
    inside: bool,
    comment: Option<Seq<char>>,
) -> (Seq<Seq<char>>, Seq<EntryModel>)
    decreases fuel, knots.len(),
{
    if knots.len() == 0 {
        (Seq::empty(), table)
    } else {
        let rest = knots.drop_first();
        match knots[0] {
            KnotModel::Block(b) => {
                let r = assemble(fuel, rest, table, indent, inside, comment);
                (render_block(b, indent, inside, comment) + r.0, r.1)
            },
            KnotModel::Ref(l) => {
                let idx = find_label(table, l);
                if idx >= 0 && fuel > 0 {
                    let node = table[idx].node;
                    let t1 = table.remove(idx);
                    let sub = assemble(
                        (fuel - 1) as nat,
                        node.tangled,
                        t1,
                        clamped_add(indent, node.indentation),
                        true,
                        comment,
                    );
                    let r = assemble(fuel, rest, sub.1, indent, inside, comment);
                    (sub.0 + r.0, r.1)
                } else {
                    assemble(fuel, rest, table, indent, inside, comment)
                }
            },
        }
    }
}

/// All output lines of a forest: the root walked with no indentation,
/// with as much fuel as the table has entries.
pub open spec fn assemble_full(
    root: Seq<KnotModel>,
    table: Seq<EntryModel>,
    comment: Option<Seq<char>>,
) -> Seq<Seq<char>> {
    assemble(table.len() as nat, root, table, 0, false, comment).0
}

} // verus!

verus! {

/// A string of `n` spaces.
fn spaces_string(n: usize) -> (r: String)
    ensures
        r@ == spaces(n as int),
{
    let mut r = String::new();
    let mut i: usize = 0;
    while i < n
        invariant
            i <= n,
            r@ == spaces(i as int),
        decreases n - i,
    {
        r.append(" ");
        i = i + 1;
        proof {
            reveal_strlit(" ");
            assert(r@ =~= spaces(i as int));
        }
    }
    r
}

/// The text of one decimal digit.
fn digit_str(d: usize) -> (r: &'static str)
    requires
        d < 10,
    ensures
        r@ == seq![digit_char(d as int)],
{
    proof {
        reveal_strlit("0");
        reveal_strlit("1");
        reveal_strlit("2");
        reveal_strlit("3");
        reveal_strlit("4");
        reveal_strlit("5");
        reveal_strlit("6");
        reveal_strlit("7");
        reveal_strlit("8");
        reveal_strlit("9");
    }
    let r: &'static str = if d == 0 { "0" }
    else if d == 1 { "1" }
    else if d == 2 { "2" }
    else if d == 3 { "3" }
    else if d == 4 { "4" }
    else if d == 5 { "5" }
    else if d == 6 { "6" }
    else if d == 7 { "7" }
    else if d == 8 { "8" }
    else { "9" };
    assert(r@ =~= seq![digit_char(d as int)]);
    r
}

/// The decimal text of a number.
fn usize_string(n: usize) -> (r: String)
    ensures
        r@ == dec_str(n as int),
    decreases n,
{
    if n < 10 {
        let d = digit_str(n);
        let r = d.to_owned();
        assert(r@ =~= dec_str(n as int));
        r
    } else {
        let q = n / 10;
        let d = n % 10;
        let mut r = usize_string(q);
        r.append(digit_str(d));
        assert(r@ =~= dec_str(n as int));
        r
    }
}

/// The provenance comment for a block, where a leader is configured.
fn maybe_block_header(block: &Block, options: &OutputOptions) -> (r: Option<String>)
    ensures
        (match comment_view(options.comment) {
            Some(leader) => r matches Some(h) && h@ == header_text(
                leader,
                block@.file,
                block@.lineno,
            ),
            None => r is None,
        }),
{
    match &options.comment {
        Some(leader) => {
            let mut h = leader.clone();
            h.append(" '");
            h.append(block.file.as_str());
            h.append("', line ");
            let num = usize_string(block.lineno);
            h.append(num.as_str());
            proof {
                reveal_strlit(" '");
                reveal_strlit("', line ");
                assert(" '"@ =~= seq![' ', '\'']);
                assert("', line "@ =~= seq!['\'', ',', ' ', 'l', 'i', 'n', 'e', ' ']);
                assert(h@ =~= header_text(leader@, block@.file, block@.lineno));
            }
            Some(h)
        },
        None => None,
    }
}

/// Add two widths, stopping at the machine limit.
fn add_clamped(a: usize, b: usize) -> (r: usize)
    ensures
        r as int == clamped_add(a as int, b as int),
{
    if a <= usize::MAX - b {
        a + b
    } else {
        usize::MAX
    }
}

/// Walk the knot sequence depth first, exactly as `assemble`
/// describes, appending the rendered lines.
fn collect_anchor_lines(
    fuel: usize,
    tangled: List<Knot>,
    anchors: &mut Vec<AnchorEntry>,
    lines: &mut Vec<String>,
    indentation: usize,
    inside: bool,
    options: &OutputOptions,
)
    ensures
        ({
            let r = assemble(
                fuel as nat,
                knot_views(tangled@),
                entry_views(old(anchors)@),
                indentation as int,
                inside,
                comment_view(options.comment),
            );
            line_views(final(lines)@) == line_views(old(lines)@) + r.0 && entry_views(
                final(anchors)@,
            ) == r.1
        }),
    decreases fuel, tangled@.len(),
{
    let ghost knots0 = knot_views(tangled@);
    let mut rest = tangled;
    let knot = rest.pop_front();
    match knot {
        None => {
            assert(line_views(lines@) =~= line_views(lines@) + Seq::<Seq<char>>::empty());
        },
        Some(knot) => {
            proof {
                assert(knot_views(rest@) =~= knots0.drop_first());
                assert(knots0[0] == knot@);
            }
            match knot {
                Knot::Block(b) => {
                    let ghost base = line_views(lines@);
                    let ghost rendered = render_block(
                        b@,
                        indentation as int,
                        inside,
                        comment_view(options.comment),
                    );
                    let ghost body = b@.lines.map_values(
                        |l: Seq<char>| spaces(indentation as int) + l,
                    );
                    let prefix = spaces_string(indentation);
                    if inside {
                        match maybe_block_header(&b, options) {
                            Some(h) => {
                                let mut line = prefix.clone();
                                line.append(h.as_str());
                                lines.push(line);
                            },
                            None => {},
                        }
                    }
                    let nb = b.lines.len();
                    proof {
                        match comment_view(options.comment) {
                            Some(leader) => {
                                if inside {
                                    assert(rendered == seq![
                                        spaces(indentation as int) + header_text(
                                            leader,
                                            b@.file,
                                            b@.lineno,
                                        ),
                                    ] + body);
                                    assert(rendered.len() == nb + 1);
                                    assert(line_views(lines@) =~= base + rendered.subrange(
                                        0,
                                        rendered.len() - nb,
                                    ));
                                } else {
                                    assert(rendered == body);
                                    assert(line_views(lines@) =~= base + rendered.subrange(
                                        0,
                                        0,
                                    ));
                                }
                            },
                            None => {
                                assert(rendered == body);
                                assert(line_views(lines@) =~= base + rendered.subrange(0, 0));
                            },
                        }
                        assert(forall|k: int| 0 <= k < nb ==> rendered[rendered.len() - nb + k]
                            == body[k]);
                    }
                    let mut bi: usize = 0;
                    while bi < nb
                        invariant
                            bi <= nb,
                            nb == b@.lines.len(),
                            b@.lines == b.lines@.map_values(|l: String| l@),
                            prefix@ == spaces(indentation as int),
                            body == b@.lines.map_values(
                                |l: Seq<char>| spaces(indentation as int) + l,
                            ),
                            line_views(lines@) == base + rendered.subrange(
                                0,
                                rendered.len() - nb + bi,
                            ),
                            rendered.len() >= nb,
                            forall|k: int| 0 <= k < nb ==> rendered[rendered.len() - nb + k]
                                == body[k],
                        decreases nb - bi,
                    {
                        let mut line = prefix.clone();
                        line.append(b.lines[bi].as_str());
                        lines.push(line);
                        bi = bi + 1;
                        proof {
                            assert(line@ == body[bi - 1]);
                            assert(rendered[rendered.len() - nb + (bi - 1)] == body[bi - 1]);
                            let m = rendered.len() - nb + (bi - 1);
                            assert(line_views(lines@) =~= (base + rendered.subrange(0, m)).push(
                                line@,
                            ));
                            assert(rendered.subrange(0, m + 1) =~= rendered.subrange(0, m).push(
                                rendered[m],
                            ));
                            assert((base + rendered.subrange(0, m)).push(line@) =~= base
                                + rendered.subrange(0, m).push(rendered[m]));
                            assert(line_views(lines@) =~= base
                                + rendered.subrange(0, rendered.len() - nb + bi));
                        }
                    }
                    proof {
                        assert(rendered.subrange(0, rendered.len() as int) =~= rendered);
                        assert(line_views(lines@) == base + rendered);
                    }
                    collect_anchor_lines(fuel, rest, anchors, lines, indentation, inside, options);
                    proof {
                        let r = assemble(
                            fuel as nat,
                            knots0,
                            entry_views(old(anchors)@),
                            indentation as int,
                            inside,
                            comment_view(options.comment),
                        );
                        assert(line_views(lines@) =~= line_views(old(lines)@) + r.0);
                    }
                },
                Knot::Ref(l) => {
                    match find_entry(anchors, &l) {
                        Some(i) if fuel > 0 => {
                            let entry = anchors.remove(i);
                            proof {
                                assert(entry_views(anchors@) =~= entry_views(old(anchors)@).remove(
                                    i as int,
                                ));
                            }
                            let sub_indent = add_clamped(indentation, entry.node.indentation);
                            collect_anchor_lines(
                                fuel - 1,
                                entry.node.tangled,
                                anchors,
                                lines,
                                sub_indent,
                                true,
                                options,
                            );
                            collect_anchor_lines(
                                fuel,
                                rest,
                                anchors,
                                lines,
                                indentation,
                                inside,
                                options,
                            );
                            proof {
                                let r = assemble(
                                    fuel as nat,
                                    knots0,
                                    entry_views(old(anchors)@),
                                    indentation as int,
                                    inside,
                                    comment_view(options.comment),
                                );
                                assert(line_views(lines@) =~= line_views(old(lines)@) + r.0);
                            }
                        },
                        _ => {
                            collect_anchor_lines(
                                fuel,
                                rest,
                                anchors,
                                lines,
                                indentation,
                                inside,
                                options,
                            );
                        },
                    }
                },
            }
        },
    }
}

/// Resolve the whole forest into flat output lines.
fn collect_tangled_output(
    tangled: List<Knot>,
    anchors: Vec<AnchorEntry>,
    options: &OutputOptions,
) -> (r: Vec<String>)
    ensures
        line_views(r@) == assemble_full(
            knot_views(tangled@),
            entry_views(anchors@),
            comment_view(options.comment),
        ),
{
    let ghost knots0 = knot_views(tangled@);
    let ghost table0 = entry_views(anchors@);
    let mut anchors = anchors;
    let fuel = anchors.len();
    let mut lines: Vec<String> = Vec::new();
    proof {
        assert(line_views(lines@) =~= Seq::<Seq<char>>::empty());
    }
    collect_anchor_lines(fuel, tangled, &mut anchors, &mut lines, 0, false, options);
    proof {
        let r = assemble(fuel as nat, knots0, table0, 0, false, comment_view(options.comment));
        assert(line_views(lines@) =~= r.0);
        assert(fuel as nat == table0.len());
    }
    lines
}

/// Process all the literate programming directives in the contents of
/// the given input streams; return the finished output lines and the
/// errors gathered along the way.
pub fn tangle_output(inputs: Vec<SourceFile>, options: OutputOptions) -> (r: (
    Vec<String>,
    Vec<TangleError>,
))
    ensures
        ({
            let m = tangle_spec(file_views(inputs@));
            line_views(r.0@) == assemble_full(m.root, m.table, comment_view(options.comment))
                && error_views(r.1@) == m.errors
        }),
{
    let forest = tangle_forest(&inputs);
    let lines = collect_tangled_output(forest.0, forest.1, &options);
    (lines, forest.2)
}

} // verus!
