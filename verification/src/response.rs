//! Streamed responses: events of a provider, and the response they build up.

use vstd::prelude::*;
use vstd::string::*;
use crate::model;
use crate::model::{duplicate_all, same_all, Modeled};

verus! {

/// What a response item holds.
#[derive(Clone, Copy, Debug, PartialEq, Eq, Structural)]
pub enum ItemKind {
    Text,
    Reasoning,
    ToolCall,
}

/// What a block of an item holds.
#[derive(Clone, Copy, Debug, PartialEq, Eq, Structural)]
pub enum BlockKind {
    Text,
    Reasoning,
    ToolCall,
}

/// A piece of a block's content.
#[derive(Clone, Debug, PartialEq, Eq)]
pub enum ContentDelta {
    Text(String),
}

/// One step of a streamed response.
#[derive(Clone, Debug, PartialEq, Eq)]
pub enum ResponseEvent {
    ItemStarted { id: String, position: usize, kind: ItemKind },
    BlockStarted { item: String, id: String, position: usize, kind: BlockKind },
    BlockDelta { item: String, block: String, delta: ContentDelta },
}

/// A block as far as it has been received.
#[derive(Debug, PartialEq, Eq)]
pub struct BlockSnapshot {
    pub id: String,
    pub position: usize,
    pub kind: BlockKind,
    pub text: String,
}

/// The mathematical content of a `BlockSnapshot`.
#[verifier::ext_equal]
pub struct BlockSnapshotView {
    pub id: Seq<char>,
    pub position: usize,
    pub kind: BlockKind,
    pub text: Seq<char>,
}

impl View for BlockSnapshot {
    type V = BlockSnapshotView;

    open spec fn view(&self) -> BlockSnapshotView {
        BlockSnapshotView {
            id: self.id@,
            position: self.position,
            kind: self.kind,
            text: self.text@,
        }
    }
}

impl Modeled for BlockSnapshot {
    open spec fn alike(left: BlockSnapshotView, right: BlockSnapshotView) -> bool {
        &&& left.id == right.id
        &&& left.position == right.position
        &&& left.kind == right.kind
        &&& left.text == right.text
    }

    fn duplicate(&self) -> (copy: Self) {
        BlockSnapshot {
            id: self.id.clone(),
            position: self.position,
            kind: self.kind,
            text: self.text.clone(),
        }
    }

    fn same(&self, other: &Self) -> (equal: bool) {
        self.id == other.id && self.position == other.position && self.kind == other.kind && self.text == other.text
    }
}

impl Clone for BlockSnapshot {
    fn clone(&self) -> (copy: Self)
        ensures
            copy@ == self@,
    {
        self.duplicate()
    }
}

/// An item as far as it has been received.
#[derive(Debug, PartialEq, Eq)]
pub struct ItemSnapshot {
    pub id: String,
    pub position: usize,
    pub kind: ItemKind,
    pub blocks: Vec<BlockSnapshot>,
}

/// The mathematical content of an `ItemSnapshot`.
#[verifier::ext_equal]
pub struct ItemSnapshotView {
    pub id: Seq<char>,
    pub position: usize,
    pub kind: ItemKind,
    pub blocks: Seq<BlockSnapshotView>,
}

impl View for ItemSnapshot {
    type V = ItemSnapshotView;

    open spec fn view(&self) -> ItemSnapshotView {
        ItemSnapshotView {
            id: self.id@,
            position: self.position,
            kind: self.kind,
            blocks: model::views(self.blocks@),
        }
    }
}

impl Modeled for ItemSnapshot {
    open spec fn alike(left: ItemSnapshotView, right: ItemSnapshotView) -> bool {
        &&& left.id == right.id
        &&& left.position == right.position
        &&& left.kind == right.kind
        &&& model::all_alike::<BlockSnapshot>(left.blocks, right.blocks)
    }

    fn duplicate(&self) -> (copy: Self) {
        ItemSnapshot {
            id: self.id.clone(),
            position: self.position,
            kind: self.kind,
            blocks: duplicate_all(&self.blocks),
        }
    }

    fn same(&self, other: &Self) -> (equal: bool) {
        self.id == other.id && self.position == other.position && self.kind == other.kind && same_all(&self.blocks, &other.blocks)
    }
}

impl Clone for ItemSnapshot {
    fn clone(&self) -> (copy: Self)
        ensures
            copy@ == self@,
    {
        self.duplicate()
    }
}

/// A response as far as it has been received.
#[derive(Clone, Debug, PartialEq, Eq)]
pub struct ResponseSnapshot {
    pub items: Vec<ItemSnapshot>,
}

/// Builds a response up from its events.
#[derive(Debug, PartialEq, Eq)]
pub struct ResponseAssembler {
    items: Vec<ItemSnapshot>,
}

impl View for ResponseAssembler {
    type V = Seq<ItemSnapshotView>;

    closed spec fn view(&self) -> Seq<ItemSnapshotView> {
        model::views(self.items@)
    }
}

/// Where an item stands.
pub open spec fn item_position(items: Seq<ItemSnapshotView>, id: Seq<char>) -> Option<int> {
    model::first(items, |item: ItemSnapshotView| item.id == id)
}

/// Where a block stands.
pub open spec fn block_position(blocks: Seq<BlockSnapshotView>, id: Seq<char>) -> Option<int> {
    model::first(blocks, |block: BlockSnapshotView| block.id == id)
}

/// A message that names what an event refers to.
pub open spec fn protocol_fault(what: Seq<char>, id: Seq<char>) -> Seq<char> {
    what + " `"@ + id + "`"@
}

/// The response after an event, or what is wrong with the event.
pub open spec fn assembled(items: Seq<ItemSnapshotView>, event: ResponseEvent) -> Result<
    Seq<ItemSnapshotView>,
    Seq<char>,
> {
    match event {
        ResponseEvent::ItemStarted { id, position, kind } => match item_position(items, id@) {
            Some(_) => Err(protocol_fault("repeated response item"@, id@)),
            None => Ok(items.push(ItemSnapshotView { id: id@, position, kind, blocks: seq![] })),
        },
        ResponseEvent::BlockStarted { item, id, position, kind } => match item_position(items, item@) {
            None => Err(protocol_fault("unknown response item"@, item@)),
            Some(index) => match block_position(items[index].blocks, id@) {
                Some(_) => Err(protocol_fault("repeated response block"@, id@)),
                None => {
                    let block = BlockSnapshotView { id: id@, position, kind, text: seq![] };
                    let blocks = items[index].blocks.push(block);
                    Ok(items.update(index, ItemSnapshotView { blocks, ..items[index] }))
                },
            },
        },
        ResponseEvent::BlockDelta { item, block, delta } => match item_position(items, item@) {
            None => Err(protocol_fault("unknown response item"@, item@)),
            Some(index) => match block_position(items[index].blocks, block@) {
                None => Err(protocol_fault("unknown response block"@, block@)),
                Some(inner) => match delta {
                    ContentDelta::Text(text) => {
                        let earlier = items[index].blocks[inner];
                        let later = BlockSnapshotView { text: earlier.text + text@, ..earlier };
                        let blocks = items[index].blocks.update(inner, later);
                        Ok(items.update(index, ItemSnapshotView { blocks, ..items[index] }))
                    },
                },
            },
        },
    }
}

/// Names what an event refers to.
fn fault_text(what: &str, id: &str) -> (text: String)
    ensures
        text@ == protocol_fault(what@, id@),
{
    let mut text = what.to_owned();
    text.append(" `");
    text.append(id);
    text.append("`");
    text
}

/// Finds an item.
fn find_item(items: &Vec<ItemSnapshot>, id: &String) -> (found: Option<usize>)
    ensures
        match found {
            Some(index) => index < items.len() && item_position(model::views(items@), id@) == Some(index as int),
            None => item_position(model::views(items@), id@) is None,
        },
{
    let ghost all = model::views(items@);
    let ghost test = |item: ItemSnapshotView| item.id == id@;
    let mut i: usize = 0;
    while i < items.len()
        invariant
            i <= items.len(),
            all == model::views(items@),
            test == (|item: ItemSnapshotView| item.id == id@),
            forall|k: int| 0 <= k < i ==> !test(#[trigger] all[k]),
        decreases items.len() - i,
    {
        if items[i].id == *id {
            proof {
                model::lemma_first(all, test, i as int);
            }
            return Some(i);
        }
        i += 1;
    }
    proof {
        model::lemma_first(all, test, i as int);
    }
    None
}

/// Finds a block.
fn find_block(blocks: &Vec<BlockSnapshot>, id: &String) -> (found: Option<usize>)
    ensures
        match found {
            Some(index) => index < blocks.len() && block_position(model::views(blocks@), id@) == Some(
                index as int,
            ),
            None => block_position(model::views(blocks@), id@) is None,
        },
{
    let ghost all = model::views(blocks@);
    let ghost test = |block: BlockSnapshotView| block.id == id@;
    let mut i: usize = 0;
    while i < blocks.len()
        invariant
            i <= blocks.len(),
            all == model::views(blocks@),
            test == (|block: BlockSnapshotView| block.id == id@),
            forall|k: int| 0 <= k < i ==> !test(#[trigger] all[k]),
        decreases blocks.len() - i,
    {
        if blocks[i].id == *id {
            proof {
                model::lemma_first(all, test, i as int);
            }
            return Some(i);
        }
        i += 1;
    }
    proof {
        model::lemma_first(all, test, i as int);
    }
    None
}

impl ResponseAssembler {
    /// A response of which nothing has been received.
    pub fn new() -> (assembler: Self)
        ensures
            assembler@ == Seq::<ItemSnapshotView>::empty(),
    {
        let assembler = ResponseAssembler { items: Vec::new() };
        assert(assembler@ =~= Seq::<ItemSnapshotView>::empty());
        assembler
    }

    /// The response as far as it has been received.
    pub fn snapshot(&self) -> (snapshot: ResponseSnapshot)
        ensures
            model::views(snapshot.items@) == self@,
    {
        ResponseSnapshot { items: duplicate_all(&self.items) }
    }

    /// Takes an event. A response does not change by an event that is refused.
    pub fn push(&mut self, event: &ResponseEvent) -> (result: Result<(), String>)
        ensures
            match result {
                Ok(()) => assembled(old(self)@, *event) == Ok::<Seq<ItemSnapshotView>, Seq<char>>(
                    final(self)@,
                ),
                Err(fault) => {
                    &&& assembled(old(self)@, *event) == Err::<Seq<ItemSnapshotView>, Seq<char>>(fault@)
                    &&& final(self)@ == old(self)@
                },
            },
    {
        let ghost before = self@;
        match event {
            ResponseEvent::ItemStarted { id, position, kind } => {
                if find_item(&self.items, id).is_some() {
                    return Err(fault_text("repeated response item", id.as_str()));
                }
                let blocks: Vec<BlockSnapshot> = Vec::new();
                self.items.push(
                    ItemSnapshot { id: id.clone(), position: *position, kind: *kind, blocks },
                );
                proof {
                    let item = ItemSnapshotView { id: id@, position: *position, kind: *kind, blocks: seq![] };
                    assert(model::views(blocks@) =~= seq![]);
                    assert(self@ =~= before.push(item));
                }
                Ok(())
            },
            ResponseEvent::BlockStarted { item, id, position, kind } => {
                let index: usize = match find_item(&self.items, item) {
                    Some(index) => index,
                    None => {
                        return Err(fault_text("unknown response item", item.as_str()));
                    },
                };
                if find_block(&self.items[index].blocks, id).is_some() {
                    return Err(fault_text("repeated response block", id.as_str()));
                }
                let ghost earlier = self.items@[index as int];
                let block = BlockSnapshot {
                    id: id.clone(),
                    position: *position,
                    kind: *kind,
                    text: String::new(),
                };
                let ghost added = block@;
                self.items[index].blocks.push(block);
                proof {
                    let later = self.items@[index as int];
                    assert(later@.blocks =~= earlier@.blocks.push(added));
                    assert(self@ =~= before.update(index as int, later@));
                }
                Ok(())
            },
            ResponseEvent::BlockDelta { item, block, delta } => {
                let index: usize = match find_item(&self.items, item) {
                    Some(index) => index,
                    None => {
                        return Err(fault_text("unknown response item", item.as_str()));
                    },
                };
                let inner: usize = match find_block(&self.items[index].blocks, block) {
                    Some(inner) => inner,
                    None => {
                        return Err(fault_text("unknown response block", block.as_str()));
                    },
                };
                let ghost earlier = self.items@[index as int];
                match delta {
                    ContentDelta::Text(text) => {
                        self.items[index].blocks[inner].text.append(text.as_str());
                    },
                }
                proof {
                    let later = self.items@[index as int];
                    assert(later@.blocks =~= earlier@.blocks.update(
                        inner as int,
                        later.blocks@[inner as int]@,
                    ));
                    assert(self@ =~= before.update(index as int, later@));
                }
                Ok(())
            },
        }
    }
}

impl Modeled for ResponseAssembler {
    open spec fn alike(left: Seq<ItemSnapshotView>, right: Seq<ItemSnapshotView>) -> bool {
        model::all_alike::<ItemSnapshot>(left, right)
    }

    fn duplicate(&self) -> (copy: Self) {
        ResponseAssembler { items: duplicate_all(&self.items) }
    }

    fn same(&self, other: &Self) -> (equal: bool) {
        same_all(&self.items, &other.items)
    }
}

/// Whether a response has an item.
pub open spec fn has_item(items: Seq<ItemSnapshotView>, id: Seq<char>) -> bool {
    exists|i: int| 0 <= i < items.len() && (#[trigger] items[i]).id == id
}

/// Whether an item has a block.
pub open spec fn has_block(blocks: Seq<BlockSnapshotView>, id: Seq<char>) -> bool {
    exists|i: int| 0 <= i < blocks.len() && (#[trigger] blocks[i]).id == id
}

proof fn lemma_item_position(items: Seq<ItemSnapshotView>, id: Seq<char>)
    ensures
        match item_position(items, id) {
            Some(index) => {
                &&& 0 <= index < items.len()
                &&& items[index].id == id
                &&& forall|k: int| 0 <= k < index ==> (#[trigger] items[k]).id != id
            },
            None => !has_item(items, id),
        },
{
    model::lemma_first_found(items, |item: ItemSnapshotView| item.id == id);
}

proof fn lemma_block_position(blocks: Seq<BlockSnapshotView>, id: Seq<char>)
    ensures
        match block_position(blocks, id) {
            Some(index) => {
                &&& 0 <= index < blocks.len()
                &&& blocks[index].id == id
                &&& forall|k: int| 0 <= k < index ==> (#[trigger] blocks[k]).id != id
            },
            None => !has_block(blocks, id),
        },
{
    model::lemma_first_found(blocks, |block: BlockSnapshotView| block.id == id);
}

/// An event is refused exactly where it does not fit: an item or a block that begins twice,
/// or a block or a text for something that has not begun.
pub proof fn only_events_that_fit_are_taken(items: Seq<ItemSnapshotView>, event: ResponseEvent)
    ensures
        assembled(items, event) is Ok <==> match event {
            ResponseEvent::ItemStarted { id, .. } => !has_item(items, id@),
            ResponseEvent::BlockStarted { item, id, .. } => exists|i: int|
                0 <= i < items.len() && (#[trigger] items[i]).id == item@ && !has_item(items.take(i), item@)
                    && !has_block(items[i].blocks, id@),
            ResponseEvent::BlockDelta { item, block, .. } => exists|i: int|
                0 <= i < items.len() && (#[trigger] items[i]).id == item@ && !has_item(items.take(i), item@)
                    && has_block(items[i].blocks, block@),
        },
{
    match event {
        ResponseEvent::ItemStarted { id, .. } => {
            lemma_item_position(items, id@);
        },
        ResponseEvent::BlockStarted { item, id, .. } => {
            lemma_item_position(items, item@);
            lemma_first_items(items, item@);
            if let Some(index) = item_position(items, item@) {
                lemma_block_position(items[index].blocks, id@);
            }
        },
        ResponseEvent::BlockDelta { item, block, .. } => {
            lemma_item_position(items, item@);
            lemma_first_items(items, item@);
            if let Some(index) = item_position(items, item@) {
                lemma_block_position(items[index].blocks, block@);
            }
        },
    }
}

proof fn lemma_first_items(items: Seq<ItemSnapshotView>, id: Seq<char>)
    ensures
        match item_position(items, id) {
            Some(index) => forall|i: int|
                0 <= i < items.len() && (#[trigger] items[i]).id == id && !has_item(items.take(i), id) <==> i == index,
            None => forall|i: int| 0 <= i < items.len() ==> (#[trigger] items[i]).id != id,
        },
{
    lemma_item_position(items, id);
    if let Some(index) = item_position(items, id) {
        assert forall|i: int|
            0 <= i < items.len() && (#[trigger] items[i]).id == id && !has_item(items.take(i), id) implies i == index by {
            if index < i {
                assert(items.take(i)[index].id == id);
            }
        }
        assert(!has_item(items.take(index), id)) by {
            assert forall|k: int| 0 <= k < index implies (#[trigger] items.take(index)[k]).id != id by {
                assert(items.take(index)[k] == items[k]);
            }
        }
    }
}

/// A block keeps its place, and its text grows by exactly the texts that are streamed for
/// it, in their order.
pub proof fn received_text_only_grows(items: Seq<ItemSnapshotView>, event: ResponseEvent, i: int, j: int)
    requires
        assembled(items, event) is Ok,
        0 <= i < items.len(),
        0 <= j < items[i].blocks.len(),
        !has_item(items.take(i), items[i].id),
        !has_block(items[i].blocks.take(j), items[i].blocks[j].id),
    ensures
        ({
            let after = assembled(items, event)->Ok_0;
            let (old_block, block) = (items[i].blocks[j], after[i].blocks[j]);
            &&& i < after.len()
            &&& j < after[i].blocks.len()
            &&& block.id == old_block.id
            &&& block.position == old_block.position
            &&& block.kind == old_block.kind
            &&& block.text == match event {
                ResponseEvent::BlockDelta { item, block: named, delta } => if item@ == items[i].id && named@
                    == old_block.id {
                    match delta {
                        ContentDelta::Text(text) => old_block.text + text@,
                    }
                } else {
                    old_block.text
                },
                _ => old_block.text,
            }
        }),
{
    match event {
        ResponseEvent::ItemStarted { .. } => {},
        ResponseEvent::BlockStarted { item, .. } => {
            lemma_item_position(items, item@);
        },
        ResponseEvent::BlockDelta { item, block, .. } => {
            lemma_item_position(items, item@);
            lemma_first_items(items, item@);
            let index = item_position(items, item@)->0;
            lemma_block_position(items[index].blocks, block@);
            let inner = block_position(items[index].blocks, block@)->0;
            if i == index && inner < j && items[i].blocks[j].id == block@ {
                assert(items[i].blocks.take(j)[inner].id == block@);
            }
            if i == index && j < inner {
                assert(items[i].blocks[j].id != block@);
            }
        },
    }
}

/// What begins stands at the end, as it was announced and with nothing received of it yet,
/// and nothing else is added or changed in number.
pub proof fn beginnings_are_empty(items: Seq<ItemSnapshotView>, event: ResponseEvent, i: int)
    requires
        assembled(items, event) is Ok,
        0 <= i < items.len(),
    ensures
        ({
            let after = assembled(items, event)->Ok_0;
            &&& after.len() == items.len() + if event is ItemStarted {
                1int
            } else {
                0
            }
            &&& after[i].id == items[i].id
            &&& after[i].position == items[i].position
            &&& after[i].kind == items[i].kind
            &&& match event {
                ResponseEvent::ItemStarted { id, position, kind } => {
                    &&& after[i] == items[i]
                    &&& after.last().id == id@
                    &&& after.last().position == position
                    &&& after.last().kind == kind
                    &&& after.last().blocks.len() == 0
                },
                ResponseEvent::BlockStarted { item, id, position, kind } => if items[i].id == item@ && !has_item(
                    items.take(i),
                    item@,
                ) {
                    &&& after[i].blocks.len() == items[i].blocks.len() + 1
                    &&& after[i].blocks.last().id == id@
                    &&& after[i].blocks.last().position == position
                    &&& after[i].blocks.last().kind == kind
                    &&& after[i].blocks.last().text.len() == 0
                } else {
                    after[i] == items[i]
                },
                ResponseEvent::BlockDelta { item, .. } => {
                    &&& after[i].blocks.len() == items[i].blocks.len()
                    &&& items[i].id != item@ ==> after[i] == items[i]
                },
            }
        }),
{
    match event {
        ResponseEvent::ItemStarted { .. } => {},
        ResponseEvent::BlockStarted { item, id, .. } => {
            lemma_item_position(items, item@);
            lemma_first_items(items, item@);
        },
        ResponseEvent::BlockDelta { item, block, .. } => {
            lemma_item_position(items, item@);
            lemma_block_position(items[item_position(items, item@)->0].blocks, block@);
        },
    }
}

proof fn lemma_fault(what: Seq<char>, start: Seq<char>, id: Seq<char>)
    requires
        start == what + " `"@,
    ensures
        protocol_fault(what, id) == start + id + "`"@,
{
}

/// The first thing that a response can begin with is an item, which is then all that it
/// has. Any other event on a response that has no such item is refused, and names it.
pub proof fn items_come_first(items: Seq<ItemSnapshotView>, event: ResponseEvent)
    ensures
        event matches ResponseEvent::ItemStarted { id, position, kind } ==> assembled(seq![], event) == Ok::<
            Seq<ItemSnapshotView>,
            Seq<char>,
        >(seq![ItemSnapshotView { id: id@, position, kind, blocks: seq![] }]),
        !(event is ItemStarted) ==> assembled(seq![], event) is Err,
        match event {
            ResponseEvent::ItemStarted { id, .. } => has_item(items, id@) ==> assembled(items, event) == Err::<
                Seq<ItemSnapshotView>,
                Seq<char>,
            >("repeated response item `"@ + id@ + "`"@),
            ResponseEvent::BlockStarted { item, .. } => !has_item(items, item@) ==> assembled(items, event) == Err::<
                Seq<ItemSnapshotView>,
                Seq<char>,
            >("unknown response item `"@ + item@ + "`"@),
            ResponseEvent::BlockDelta { item, .. } => !has_item(items, item@) ==> assembled(items, event) == Err::<
                Seq<ItemSnapshotView>,
                Seq<char>,
            >("unknown response item `"@ + item@ + "`"@),
        },
{
    let none = Seq::<ItemSnapshotView>::empty();
    match event {
        ResponseEvent::ItemStarted { id, position, kind } => {
            lemma_item_position(items, id@);
            lemma_item_position(none, id@);
            let begun = ItemSnapshotView { id: id@, position, kind, blocks: seq![] };
            assert(none.push(begun) =~= seq![begun]);
            reveal_strlit("repeated response item");
            reveal_strlit("repeated response item `");
            reveal_strlit(" `");
            assert("repeated response item `"@ =~= "repeated response item"@ + " `"@);
            lemma_fault("repeated response item"@, "repeated response item `"@, id@);
        },
        ResponseEvent::BlockStarted { item, .. } => {
            lemma_item_position(items, item@);
            lemma_item_position(none, item@);
            reveal_strlit("unknown response item");
            reveal_strlit("unknown response item `");
            reveal_strlit(" `");
            assert("unknown response item `"@ =~= "unknown response item"@ + " `"@);
            lemma_fault("unknown response item"@, "unknown response item `"@, item@);
        },
        ResponseEvent::BlockDelta { item, .. } => {
            lemma_item_position(items, item@);
            lemma_item_position(none, item@);
            reveal_strlit("unknown response item");
            reveal_strlit("unknown response item `");
            reveal_strlit(" `");
            assert("unknown response item `"@ =~= "unknown response item"@ + " `"@);
            lemma_fault("unknown response item"@, "unknown response item `"@, item@);
        },
    }
}

} // verus!
