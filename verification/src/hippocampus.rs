//! Session memory extraction: the prompt that asks a model for new
//! knowledge, and the writes that an extraction plan asks for.
use vstd::prelude::*;

use crate::link::links_of;
use crate::node::{NodeContent, NodeWrite};
use crate::text::contains_string;

verus! {

/// One operation of an extraction plan.
#[derive(Debug, PartialEq)]
pub enum ExtractionOp {
    Write { path: String, content: String },
    Update { path: String, section: String, content: String },
    Skip { reason: String },
}

/// The nodes of `linked` that were read, as (path, content) pairs, in order.
pub open spec fn read_pairs(linked: Seq<NodeContent>) -> Seq<(Seq<char>, Seq<char>)>
    decreases linked.len(),
{
    if linked.len() == 0 {
        Seq::empty()
    } else {
        let r = read_pairs(linked.drop_last());
        match linked.last().text() {
            Some(c) => r.push((linked.last().path@, c)),
            None => r,
        }
    }
}

pub open spec fn pair_paths(r: Seq<(Seq<char>, Seq<char>)>) -> Seq<Seq<char>> {
    Seq::new(r.len(), |i: int| r[i].0)
}

/// The relevant nodes: the linked nodes that were read, then each global
/// node that was read and is not among them yet.
pub open spec fn relevant_from(linked: Seq<NodeContent>, globals: Seq<NodeContent>) -> Seq<
    (Seq<char>, Seq<char>),
>
    decreases globals.len(),
{
    if globals.len() == 0 {
        read_pairs(linked)
    } else {
        let r = relevant_from(linked, globals.drop_last());
        let g = globals.last();
        if !pair_paths(r).contains(g.path@) && g.text() is Some {
            r.push((g.path@, g.text()->0))
        } else {
            r
        }
    }
}

/// The listing holds, in order, exactly the nodes that the session links to.
pub open spec fn reads_links_of(session: Seq<char>, linked: Seq<NodeContent>) -> bool {
    linked.len() == links_of(session).len() && forall|i: int|
        0 <= i < linked.len() ==> #[trigger] linked[i].path@ == links_of(session)[i]
}

/// Find stored nodes that are relevant to the session.
///
/// Relevance is determined by:
/// 1. Nodes referenced in the session via [[links]] (`linked`: the reads of
///    the session's links, in the order `parse_links` gives them)
/// 2. Global memory nodes (`globals`: the listing under `global`, read)
pub fn find_relevant_nodes(linked: &Vec<NodeContent>, globals: &Vec<NodeContent>) -> (res: Vec<(String, String)>)
    ensures
        res.deep_view() == relevant_from(linked@, globals@),
{
    let mut relevant: Vec<(String, String)> = Vec::new();
    let mut paths: Vec<String> = Vec::new();
    let mut i: usize = 0;
    assert(linked@.take(0) =~= Seq::<NodeContent>::empty());
    while i < linked.len()
        invariant
            i <= linked@.len(),
            relevant.deep_view() == read_pairs(linked@.take(i as int)),
            paths.deep_view() == pair_paths(relevant.deep_view()),
        decreases linked@.len() - i,
    {
        let e = &linked[i];
        assert(linked@.take(i + 1).drop_last() =~= linked@.take(i as int));
        assert(linked@.take(i + 1).last() == *e);
        match &e.content {
            Some(c) => {
                let ghost old_dv = relevant.deep_view();
                let ghost old_pv = paths.deep_view();
                relevant.push((e.path.clone(), c.clone()));
                paths.push(e.path.clone());
                assert(relevant.deep_view() =~= old_dv.push((e.path@, c@)));
                assert(paths.deep_view() =~= old_pv.push(e.path@));
                assert(paths.deep_view() =~= pair_paths(relevant.deep_view()));
            },
            None => {},
        }
        i += 1;
    }
    assert(linked@.take(linked@.len() as int) =~= linked@);
    let mut j: usize = 0;
    assert(globals@.take(0) =~= Seq::<NodeContent>::empty());
    while j < globals.len()
        invariant
            j <= globals@.len(),
            relevant.deep_view() == relevant_from(linked@, globals@.take(j as int)),
            paths.deep_view() == pair_paths(relevant.deep_view()),
        decreases globals@.len() - j,
    {
        let g = &globals[j];
        assert(globals@.take(j + 1).drop_last() =~= globals@.take(j as int));
        assert(globals@.take(j + 1).last() == *g);
        if !contains_string(&paths, &g.path) {
            match &g.content {
                Some(c) => {
                    let ghost old_dv = relevant.deep_view();
                    let ghost old_pv = paths.deep_view();
                    relevant.push((g.path.clone(), c.clone()));
                    paths.push(g.path.clone());
                    assert(relevant.deep_view() =~= old_dv.push((g.path@, c@)));
                    assert(paths.deep_view() =~= old_pv.push(g.path@));
                    assert(paths.deep_view() =~= pair_paths(relevant.deep_view()));
                },
                None => {},
            }
        }
        j += 1;
    }
    assert(globals@.take(globals@.len() as int) =~= globals@);
    relevant
}

/// The instructions that end every extraction prompt.
pub open spec fn instructions_text() -> Seq<char> {
    "## Extraction Instructions\n\nAnalyze the session and decide what new knowledge should be stored.\n\nFor each item to store, output in this format:\n\n```markdown\n### WRITE <path>\n<content>\n```\n\nOr to update an existing node:\n\n```markdown\n### UPDATE <path>\nReplace section \"## SectionName\" with:\n<new content>\n```\n\nIf nothing else needs storing:\n\n```markdown\n### SKIP\nReasoning: <why nothing else needs to be stored>\n```\n\n### What to Extract\n\nLook for:\n- **User preferences**: \"I prefer X\", \"Always use Y\"\n- **Decisions**: \"We chose X over Y because Z\"\n- **Facts**: \"The API endpoint is /v2/users\"\n- **Corrections**: \"Actually, the value is X not Y\"\n- **Project knowledge**: Architecture decisions, deployment configs\n- **Relationships**: \"Module A depends on Module B\"\n\n### What NOT to Extract\n\n- Transient debugging steps\n- Conversation filler / pleasantries\n- Information already stored verbatim\n- Highly ephemeral task details\n\n## Extraction Plan\n\nNow output your extraction plan:\n\n"@
}

pub open spec fn memory_blocks(r: Seq<(Seq<char>, Seq<char>)>) -> Seq<char>
    decreases r.len(),
{
    if r.len() == 0 {
        Seq::empty()
    } else {
        memory_blocks(r.drop_last()) + "### [["@ + r.last().0 + "]]\n\n"@ + r.last().1 + "\n\n"@
    }
}

/// The extraction prompt for a session, with the relevant stored nodes `r`.
pub open spec fn prompt_text(session: Seq<char>, r: Seq<(Seq<char>, Seq<char>)>) -> Seq<char> {
    "# Memory Extraction Task\n\n"@
        + "You are extracting knowledge from a conversation session to store in long-term memory.\n\n"@
        + "## Session Transcript\n\n"@ + "```\n"@ + session + "\n```\n\n"@ + (if r.len() > 0 {
        "## Currently Stored Memories (relevant to this session)\n\n"@ + memory_blocks(r)
    } else {
        Seq::empty()
    }) + instructions_text()
}

/// Build an extraction prompt from a session transcript.
///
/// Reads the session content and relevant stored nodes to generate
/// a prompt that asks the model to extract new knowledge. `linked` holds
/// the reads of the nodes the session links to, `globals` those of the
/// nodes under `global`.
pub fn build_extraction_prompt(session: &str, linked: &Vec<NodeContent>, globals: &Vec<NodeContent>) -> (res: String)
    requires
        reads_links_of(session@, linked@),
    ensures
        res@ == prompt_text(session@, relevant_from(linked@, globals@)),
{
    let mut prompt = String::from_str("# Memory Extraction Task\n\n");
    prompt.append("You are extracting knowledge from a conversation session to store in long-term memory.\n\n");
    prompt.append("## Session Transcript\n\n");
    prompt.append("```\n");
    prompt.append(session);
    prompt.append("\n```\n\n");
    let relevant = find_relevant_nodes(linked, globals);
    let ghost rv = relevant.deep_view();
    let ghost head = prompt@;
    if relevant.len() > 0 {
        prompt.append("## Currently Stored Memories (relevant to this session)\n\n");
        let ghost start = prompt@;
        let mut i: usize = 0;
        assert(rv.take(0) =~= Seq::<(Seq<char>, Seq<char>)>::empty());
        while i < relevant.len()
            invariant
                rv == relevant.deep_view(),
                i <= rv.len(),
                prompt@ == start + memory_blocks(rv.take(i as int)),
            decreases rv.len() - i,
        {
            assert(rv.take(i + 1).drop_last() =~= rv.take(i as int));
            assert(rv.take(i + 1).last() == (relevant@[i as int].0@, relevant@[i as int].1@));
            prompt.append("### [[");
            prompt.append(relevant[i].0.as_str());
            prompt.append("]]\n\n");
            prompt.append(relevant[i].1.as_str());
            prompt.append("\n\n");
            i += 1;
        }
        assert(rv.take(rv.len() as int) =~= rv);
    }
    let ghost mid = prompt@;
    prompt.append("## Extraction Instructions\n\nAnalyze the session and decide what new knowledge should be stored.\n\nFor each item to store, output in this format:\n\n```markdown\n### WRITE <path>\n<content>\n```\n\nOr to update an existing node:\n\n```markdown\n### UPDATE <path>\nReplace section \"## SectionName\" with:\n<new content>\n```\n\nIf nothing else needs storing:\n\n```markdown\n### SKIP\nReasoning: <why nothing else needs to be stored>\n```\n\n### What to Extract\n\nLook for:\n- **User preferences**: \"I prefer X\", \"Always use Y\"\n- **Decisions**: \"We chose X over Y because Z\"\n- **Facts**: \"The API endpoint is /v2/users\"\n- **Corrections**: \"Actually, the value is X not Y\"\n- **Project knowledge**: Architecture decisions, deployment configs\n- **Relationships**: \"Module A depends on Module B\"\n\n### What NOT to Extract\n\n- Transient debugging steps\n- Conversation filler / pleasantries\n- Information already stored verbatim\n- Highly ephemeral task details\n\n## Extraction Plan\n\nNow output your extraction plan:\n\n");
    assert(mid =~= head + (if rv.len() > 0 {
        "## Currently Stored Memories (relevant to this session)\n\n"@ + memory_blocks(rv)
    } else {
        Seq::empty()
    }));
    assert(prompt@ =~= prompt_text(session@, rv));
    prompt
}

/// The write that an operation asks for, if any.
pub open spec fn op_write(op: ExtractionOp) -> Option<(Seq<char>, Seq<char>)> {
    match op {
        ExtractionOp::Write { path, content } => Some((path@, content@)),
        ExtractionOp::Update { path, section: _, content } => Some((path@, content@)),
        ExtractionOp::Skip { reason: _ } => None,
    }
}

/// The writes of a plan, in order.
pub open spec fn plan_writes(ops: Seq<ExtractionOp>) -> Seq<(Seq<char>, Seq<char>)>
    decreases ops.len(),
{
    if ops.len() == 0 {
        Seq::empty()
    } else {
        let r = plan_writes(ops.drop_last());
        match op_write(ops.last()) {
            Some(w) => r.push(w),
            None => r,
        }
    }
}

pub open spec fn writes_view(ws: Seq<NodeWrite>) -> Seq<(Seq<char>, Seq<char>)> {
    Seq::new(ws.len(), |i: int| (ws[i].path@, ws[i].content@))
}

/// Execute an extraction plan: the node writes it asks for, in order. A
/// `Write` writes its content; an `Update` currently overwrites the node
/// with its new content (its section is not used); a `Skip` writes
/// nothing. The number of nodes written or updated is the number of writes.
pub fn execute_extraction(ops: &Vec<ExtractionOp>) -> (res: Vec<NodeWrite>)
    ensures
        writes_view(res@) == plan_writes(ops@),
{
    let mut writes: Vec<NodeWrite> = Vec::new();
    let mut i: usize = 0;
    assert(ops@.take(0) =~= Seq::<ExtractionOp>::empty());
    while i < ops.len()
        invariant
            i <= ops@.len(),
            writes_view(writes@) == plan_writes(ops@.take(i as int)),
        decreases ops@.len() - i,
    {
        assert(ops@.take(i + 1).drop_last() =~= ops@.take(i as int));
        assert(ops@.take(i + 1).last() == ops@[i as int]);
        let ghost old_wv = writes_view(writes@);
        match &ops[i] {
            ExtractionOp::Write { path, content } => {
                writes.push(NodeWrite { path: path.clone(), content: content.clone() });
                assert(writes_view(writes@) =~= old_wv.push((path@, content@)));
            },
            ExtractionOp::Update { path, section: _, content } => {
                writes.push(NodeWrite { path: path.clone(), content: content.clone() });
                assert(writes_view(writes@) =~= old_wv.push((path@, content@)));
            },
            ExtractionOp::Skip { reason: _ } => {},
        }
        i += 1;
    }
    assert(ops@.take(ops@.len() as int) =~= ops@);
    writes
}

} // verus!
