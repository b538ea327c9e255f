//! Flattening a conversation's node tree into searchable text. A tree is
//! a table of optional nodes addressed by ordinal, plus the root's child
//! list; a depth-first walk follows each listed child in order, appends
//! every message fragment's text followed by a space, then descends into
//! that node's own children. A child ordinal with no node is skipped
//! silently; a node reached twice stops the walk with
//! [`IndexError::CycleDetected`] instead of looping.

use vstd::prelude::*;

use crate::index::{recs_view, untitled, ConversationRecord, RecordV};
use crate::IndexError;

verus! {

/// One node of the conversation tree: the text of its message fragments
/// (empty if the node carries no message) and the ordinals of its
/// children, in order.
#[derive(Debug)]
pub struct MappingNode {
    pub fragments: Vec<String>,
    pub children: Vec<usize>,
}

/// Mathematical form of a node.
#[verifier::ext_equal]
pub struct NodeV {
    pub fragments: Seq<Seq<char>>,
    pub children: Seq<int>,
}

impl View for MappingNode {
    type V = NodeV;

    open spec fn view(&self) -> NodeV {
        NodeV {
            fragments: self.fragments@.map_values(|f: String| f@),
            children: self.children@.map_values(|c: usize| c as int),
        }
    }
}

/// A conversation's node tree: the root's child list and the node table.
/// A `None` entry is a referenced-but-missing node.
#[derive(Debug)]
pub struct ConversationTree {
    pub root_children: Vec<usize>,
    pub nodes: Vec<Option<MappingNode>>,
}

/// Mathematical form of a tree.
#[verifier::ext_equal]
pub struct TreeV {
    pub root_children: Seq<int>,
    pub nodes: Seq<Option<NodeV>>,
}

impl View for ConversationTree {
    type V = TreeV;

    open spec fn view(&self) -> TreeV {
        TreeV {
            root_children: self.root_children@.map_values(|c: usize| c as int),
            nodes: self.nodes@.map_values(
                |n: Option<MappingNode>|
                    match n {
                        Some(m) => Some(m@),
                        None => None,
                    },
            ),
        }
    }
}

/// The text of a fragment list: each fragment followed by one space.
pub open spec fn frags_text(frags: Seq<Seq<char>>) -> Seq<char>
    decreases frags.len(),
{
    if frags.len() == 0 {
        Seq::empty()
    } else {
        frags_text(frags.drop_last()) + frags.last() + seq![' ']
    }
}

/// How many nodes are still unvisited.
pub open spec fn count_unvisited(visited: Seq<bool>) -> nat
    decreases visited.len(),
{
    if visited.len() == 0 {
        0
    } else {
        count_unvisited(visited.drop_last()) + if visited.last() {
            0nat
        } else {
            1nat
        }
    }
}

/// Size of the pending work: one unit per frame plus one per pending id.
pub open spec fn stack_weight(stack: Seq<Seq<int>>) -> nat
    decreases stack.len(),
{
    if stack.len() == 0 {
        0
    } else {
        stack_weight(stack.drop_last()) + stack.last().len() + 1
    }
}

proof fn lemma_count_unvisited_update(v: Seq<bool>, id: int)
    requires
        0 <= id < v.len(),
        !v[id],
    ensures
        count_unvisited(v.update(id, true)) < count_unvisited(v),
    decreases v.len(),
{
    let v2 = v.update(id, true);
    if id == v.len() - 1 {
        assert(v2.drop_last() =~= v.drop_last());
        assert(v2.last());
        assert(!v.last());
    } else {
        assert(v2.drop_last() =~= v.drop_last().update(id, true));
        assert(v2.last() == v.last());
        lemma_count_unvisited_update(v.drop_last(), id);
    }
}

proof fn lemma_stack_weight_drop_head(stack: Seq<Seq<int>>)
    requires
        stack.len() > 0,
        stack.last().len() > 0,
    ensures
        stack_weight(stack.update(stack.len() - 1, stack.last().drop_first())) == stack_weight(
            stack,
        ) - 1,
{
    let s2 = stack.update(stack.len() - 1, stack.last().drop_first());
    assert(s2.drop_last() =~= stack.drop_last());
    assert(s2.last() == stack.last().drop_first());
}

/// One depth-first walk over the pending work: `stack` holds, innermost
/// last, the child lists still to follow; `visited` marks the nodes
/// already entered; `acc` is the text gathered so far. The result is the
/// final text, or nothing if a node is reached twice.
pub open spec fn extract_work(
    nodes: Seq<Option<NodeV>>,
    stack: Seq<Seq<int>>,
    visited: Seq<bool>,
    acc: Seq<char>,
) -> Option<Seq<char>>
    decreases count_unvisited(visited), stack_weight(stack),
    when visited.len() == nodes.len()
    via extract_work_decreases
{
    if stack.len() == 0 {
        Some(acc)
    } else if stack.last().len() == 0 {
        extract_work(nodes, stack.drop_last(), visited, acc)
    } else {
        let id = stack.last()[0];
        let rest = stack.update(stack.len() - 1, stack.last().drop_first());
        if 0 <= id < nodes.len() && nodes[id] is Some {
            if visited[id] {
                None
            } else {
                let node = nodes[id]->0;
                extract_work(
                    nodes,
                    rest.push(node.children),
                    visited.update(id, true),
                    acc + frags_text(node.fragments),
                )
            }
        } else {
            extract_work(nodes, rest, visited, acc)
        }
    }
}

#[via_fn]
proof fn extract_work_decreases(
    nodes: Seq<Option<NodeV>>,
    stack: Seq<Seq<int>>,
    visited: Seq<bool>,
    acc: Seq<char>,
) {
    if stack.len() > 0 && stack.last().len() > 0 {
        lemma_stack_weight_drop_head(stack);
        let id = stack.last()[0];
        if 0 <= id < nodes.len() && nodes[id] is Some && !visited[id] {
            lemma_count_unvisited_update(visited, id);
        }
    }
}

/// The flattened text of a tree: a depth-first walk over the root's
/// child list, or nothing if the walk reaches a node twice.
pub open spec fn extract_spec(t: TreeV) -> Option<Seq<char>> {
    extract_work(
        t.nodes,
        seq![t.root_children],
        Seq::new(t.nodes.len(), |i: int| false),
        Seq::empty(),
    )
}

/// One suspended child list: the ids, and how many have been handled.
struct Frame {
    ids: Vec<usize>,
    pos: usize,
}

/// The ids a frame still has to follow.
spec fn frame_view(f: Frame) -> Seq<int> {
    f.ids@.map_values(|u: usize| u as int).skip(f.pos as int)
}

/// The pending work of the whole frame stack.
spec fn frames_view(fs: Seq<Frame>) -> Seq<Seq<int>> {
    fs.map_values(|f: Frame| frame_view(f))
}

/// Copies a list of ordinals.
fn clone_ids(v: &Vec<usize>) -> (r: Vec<usize>)
    ensures
        r@ == v@,
{
    let mut r: Vec<usize> = Vec::new();
    let mut i: usize = 0;
    while i < v.len()
        invariant
            i <= v@.len(),
            r@ == v@.take(i as int),
        decreases v@.len() - i,
    {
        r.push(v[i]);
        proof {
            assert(v@.take(i as int + 1) =~= v@.take(i as int).push(v@[i as int]));
        }
        i = i + 1;
    }
    proof {
        assert(v@.take(v@.len() as int) =~= v@);
    }
    r
}

/// Flattens a conversation tree into its searchable text: every listed
/// child is followed in order, each visited node contributes its
/// fragments' text (each fragment followed by a space), then its own
/// children are walked. Missing nodes are skipped; reaching a node twice
/// yields [`IndexError::CycleDetected`]. The result is exactly
/// [`extract_spec`] of the tree.
pub fn extract(tree: &ConversationTree) -> (r: Result<String, IndexError>)
    ensures
        (extract_spec(tree@) matches Some(s) ==> (r matches Ok(out) && out@ == s)),
        (extract_spec(tree@) is None ==> r == Result::<String, IndexError>::Err(
            IndexError::CycleDetected,
        )),
{
    let ghost tv = tree@;
    let n = tree.nodes.len();
    let mut visited: Vec<bool> = Vec::new();
    let mut vi: usize = 0;
    while vi < n
        invariant
            vi <= n,
            visited@ =~= Seq::new(vi as nat, |i: int| false),
        decreases n - vi,
    {
        visited.push(false);
        vi = vi + 1;
    }
    let mut acc = String::new();
    let mut stack: Vec<Frame> = Vec::new();
    stack.push(Frame { ids: clone_ids(&tree.root_children), pos: 0 });
    proof {
        assert(visited@ =~= Seq::new(tv.nodes.len(), |i: int| false));
        assert(frame_view(stack@[0]) =~= tv.root_children);
        assert(frames_view(stack@) =~= seq![tv.root_children]);
        assert(acc@ =~= Seq::<char>::empty());
    }
    while stack.len() > 0
        invariant
            tv == tree@,
            n == tree.nodes@.len(),
            visited@.len() == tv.nodes.len(),
            forall|a: int|
                0 <= a < stack@.len() ==> (#[trigger] stack@[a]).pos <= stack@[a].ids@.len(),
            extract_work(tv.nodes, frames_view(stack@), visited@, acc@) == extract_spec(tv),
        decreases count_unvisited(visited@), stack_weight(frames_view(stack@)),
    {
        let top = stack.len() - 1;
        let ghost fv = frames_view(stack@);
        let pos = stack[top].pos;
        let len = stack[top].ids.len();
        if pos >= len {
            proof {
                assert(fv.last() == frame_view(stack@[top as int]));
                assert(fv.last() =~= Seq::<int>::empty());
                assert(frames_view(stack@.drop_last()) =~= fv.drop_last());
            }
            let _popped = stack.pop();
            proof {
                assert(frames_view(stack@) =~= fv.drop_last());
            }
        } else {
            let mut fr = stack.pop().unwrap();
            let id = fr.ids[fr.pos];
            let ghost frv0 = frame_view(fr);
            fr.pos = fr.pos + 1;
            proof {
                assert(frame_view(fr) =~= frv0.drop_first());
                assert(fv.last() == frv0);
                assert(frv0[0] == id as int);
                assert(frv0.len() > 0);
            }
            stack.push(fr);
            let ghost rest = fv.update(fv.len() - 1, fv.last().drop_first());
            proof {
                assert(frames_view(stack@) =~= rest);
            }
            let mut handled = false;
            if id < n {
                let node_opt = &tree.nodes[id];
                match node_opt {
                    Some(node) => {
                        proof {
                            assert(tv.nodes[id as int] == Some(node@));
                        }
                        handled = true;
                        if visited[id] {
                            proof {
                                assert(extract_work(tv.nodes, fv, visited@, acc@) is None);
                            }
                            return Err(IndexError::CycleDetected);
                        }
                        let ghost visited0 = visited@;
                        visited[id] = true;
                        let ghost acc0 = acc@;
                        let ghost fragsv = node@.fragments;
                        let mut fi: usize = 0;
                        proof {
                            assert(fragsv.take(0) =~= Seq::<Seq<char>>::empty());
                            assert(acc@ =~= acc0 + frags_text(fragsv.take(0)));
                        }
                        while fi < node.fragments.len()
                            invariant
                                fragsv == node@.fragments,
                                fi <= node.fragments@.len(),
                                acc@ == acc0 + frags_text(fragsv.take(fi as int)),
                            decreases node.fragments@.len() - fi,
                        {
                            let frag = &node.fragments[fi];
                            acc.append(frag.as_str());
                            acc.append(" ");
                            proof {
                                reveal_strlit(" ");
                                assert((" "@) =~= seq![' ']);
                                assert(fragsv.take(fi as int + 1).drop_last() =~= fragsv.take(
                                    fi as int,
                                ));
                                assert(fragsv.take(fi as int + 1).last() == fragsv[fi as int]);
                                assert(acc@ =~= acc0 + frags_text(fragsv.take(fi as int + 1)));
                            }
                            fi = fi + 1;
                        }
                        proof {
                            assert(fragsv.take(fragsv.len() as int) =~= fragsv);
                            assert(acc@ =~= acc0 + frags_text(fragsv));
                        }
                        let ghost rest2 = frames_view(stack@);
                        stack.push(Frame { ids: clone_ids(&node.children), pos: 0 });
                        proof {
                            assert(frame_view(stack@.last()) =~= node@.children);
                            assert(frames_view(stack@) =~= rest2.push(node@.children));
                            assert(extract_work(tv.nodes, fv, visited0, acc0) == extract_work(
                                tv.nodes,
                                rest.push(node@.children),
                                visited0.update(id as int, true),
                                acc0 + frags_text(node@.fragments),
                            ));
                            assert(visited@ =~= visited0.update(id as int, true));
                            lemma_count_unvisited_update(visited0, id as int);
                        }
                    },
                    None => {
                        proof {
                            assert(tv.nodes[id as int] is None);
                        }
                    },
                }
            }
            if !handled {
                proof {
                    let ghost idi = id as int;
                    assert(!(0 <= idi && idi < tv.nodes.len() && tv.nodes[idi] is Some));
                    assert(extract_work(tv.nodes, fv, visited@, acc@) == extract_work(
                        tv.nodes,
                        rest,
                        visited@,
                        acc@,
                    ));
                    lemma_stack_weight_drop_head(fv);
                }
            }
        }
    }
    proof {
        assert(frames_view(stack@).len() == 0);
        assert(extract_work(tv.nodes, frames_view(stack@), visited@, acc@) == Some(acc@));
    }
    Ok(acc)
}

/// One conversation as upstream hands it over: id, optional title,
/// optional timestamp, and the message tree.
#[derive(Debug)]
pub struct RawConversation {
    pub id: String,
    pub title: Option<String>,
    pub inserted_at: Option<String>,
    pub mapping: ConversationTree,
}

/// Mathematical form of a raw conversation.
#[verifier::ext_equal]
pub struct RawV {
    pub id: Seq<char>,
    pub title: Option<Seq<char>>,
    pub inserted_at: Option<Seq<char>>,
    pub mapping: TreeV,
}

impl View for RawConversation {
    type V = RawV;

    open spec fn view(&self) -> RawV {
        RawV {
            id: self.id@,
            title: match self.title {
                Some(ref t) => Some(t@),
                None => None,
            },
            inserted_at: match self.inserted_at {
                Some(ref t) => Some(t@),
                None => None,
            },
            mapping: self.mapping@,
        }
    }
}

/// The views of a vector of raw conversations.
pub open spec fn raws_view(rs: Seq<RawConversation>) -> Seq<RawV> {
    rs.map_values(|r: RawConversation| r@)
}

/// The record a raw conversation with extracted content becomes: missing
/// titles fall back to the fallback title, missing timestamps to the
/// empty date.
pub open spec fn record_of_raw(rc: RawV, content: Seq<char>) -> RecordV {
    RecordV {
        id: rc.id,
        title: match rc.title {
            Some(t) => t,
            None => untitled(),
        },
        date: match rc.inserted_at {
            Some(d) => d,
            None => Seq::empty(),
        },
        content,
    }
}

/// The records of a batch: each conversation whose tree flattens cleanly
/// becomes one record, in order; one whose walk reaches a node twice is
/// skipped, and the batch goes on.
pub open spec fn extract_records_spec(rs: Seq<RawV>) -> Seq<RecordV>
    decreases rs.len(),
{
    if rs.len() == 0 {
        Seq::empty()
    } else {
        let prev = extract_records_spec(rs.drop_last());
        match extract_spec(rs.last().mapping) {
            Some(c) => prev.push(record_of_raw(rs.last(), c)),
            None => prev,
        }
    }
}

/// Turns a batch of raw conversations into index-ready records: each
/// tree is flattened, missing titles fall back to the fallback title and
/// missing timestamps to the empty date, and a conversation whose walk
/// fails is skipped while the batch continues — malformed input never
/// aborts the whole run.
pub fn extract_records(convs: &Vec<RawConversation>) -> (records: Vec<ConversationRecord>)
    ensures
        recs_view(records@) == extract_records_spec(raws_view(convs@)),
{
    let ghost rv = raws_view(convs@);
    let mut records: Vec<ConversationRecord> = Vec::new();
    let mut d: usize = 0;
    proof {
        assert(rv.take(0) =~= Seq::<RawV>::empty());
        assert(recs_view(records@) =~= extract_records_spec(rv.take(0)));
    }
    while d < convs.len()
        invariant
            rv == raws_view(convs@),
            d <= convs@.len(),
            recs_view(records@) == extract_records_spec(rv.take(d as int)),
        decreases convs@.len() - d,
    {
        let rc = &convs[d];
        proof {
            assert(rc@ == rv[d as int]);
            assert(rv.take(d as int + 1).drop_last() =~= rv.take(d as int));
            assert(rv.take(d as int + 1).last() == rv[d as int]);
        }
        match extract(&rc.mapping) {
            Ok(content) => {
                let title: Option<String> = match &rc.title {
                    Some(t) => Some(t.clone()),
                    None => None,
                };
                let date: Option<String> = match &rc.inserted_at {
                    Some(t) => Some(t.clone()),
                    None => None,
                };
                let ghost old_records = records@;
                let rec = ConversationRecord::new(rc.id.clone(), title, date, content);
                records.push(rec);
                proof {
                    assert(recs_view(records@) =~= recs_view(old_records).push(rec@));
                    assert(rec@ =~= record_of_raw(rv[d as int], extract_spec(
                        rv[d as int].mapping,
                    )->0));
                }
            },
            Err(_) => {
            },
        }
        d = d + 1;
    }
    proof {
        assert(rv.take(rv.len() as int) =~= rv);
    }
    records
}

} // verus!
