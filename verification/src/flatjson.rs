//! The flattened representation of a JSON document: one row per line of the
//! pretty-printed document, with links between parents, siblings and the two
//! ends of each container.

use std::ops::Range;

use vstd::prelude::*;
use vstd::utf8::*;

use crate::lineprinter::{is_js_identifier, spec_is_js_identifier};
use crate::text::{utf8, decimal, push_str, push_ascii, push_decimal, substring, lemma_utf8_len};
use crate::jsonparser::{parse, spec_parse};
use crate::jsonstringunescaper::{
    UnescapeError, UnescapeFailure, escapes_valid, unescape_from, unsafe_unescape_json_string,
};

verus! {

pub type Index = usize;

/// `n` spaces, as bytes.
pub open spec fn spaces(n: nat) -> Seq<u8> {
    Seq::new(n, |i: int| 32u8)
}

proof fn lemma_spaces_push2(n: nat)
    ensures
        spaces(n).push(32u8).push(32u8) == spaces(n + 2),
{
    assert(spaces(n).push(32u8).push(32u8) =~= spaces(n + 2));
}

pub const NIL: usize = usize::MAX;

#[derive(Copy, Clone, Debug, PartialEq, Eq, Structural)]
pub enum OptionIndex {
    Nil,
    Index(Index),
}

impl OptionIndex {
    pub fn is_nil(&self) -> (b: bool)
        ensures
            b == (*self is Nil),
    {
        matches!(self, OptionIndex::Nil)
    }

    pub fn is_some(&self) -> (b: bool)
        ensures
            b == (*self is Index),
    {
        !self.is_nil()
    }

    pub fn unwrap(&self) -> (i: Index)
        requires
            *self is Index,
        ensures
            *self == OptionIndex::Index(i),
    {
        match self {
            OptionIndex::Nil => 0,
            OptionIndex::Index(i) => *i,
        }
    }

    /// The index, or `NIL` for `Nil`; the inverse of `from`.
    pub fn to_usize(&self) -> (i: usize)
        ensures
            i == match *self {
                OptionIndex::Nil => NIL,
                OptionIndex::Index(j) => j,
            },
    {
        match self {
            OptionIndex::Nil => NIL,
            OptionIndex::Index(i) => *i,
        }
    }
}

impl From<usize> for OptionIndex {
    fn from(i: usize) -> (res: Self) {
        if i == NIL {
            OptionIndex::Nil
        } else {
            OptionIndex::Index(i)
        }
    }
}

impl vstd::std_specs::convert::FromSpecImpl<usize> for OptionIndex {
    open spec fn obeys_from_spec() -> bool {
        true
    }

    open spec fn from_spec(i: usize) -> OptionIndex {
        if i == NIL {
            OptionIndex::Nil
        } else {
            OptionIndex::Index(i)
        }
    }
}

#[derive(PartialEq, Eq, Copy, Clone, Structural)]
pub enum PathType {
    Dot,
    Bracket,
    Query,
    DotWithTopLevelIndex,
}

#[derive(Copy, Clone, Debug, PartialEq, Eq, Structural)]
pub enum ContainerType {
    Object,
    Array,
}

impl ContainerType {
    pub fn open_byte(&self) -> (b: u8)
        ensures
            b == self.open_char() as u8,
            b < 0x80,
    {
        match self {
            ContainerType::Object => 123,
            ContainerType::Array => 91,
        }
    }

    pub fn close_byte(&self) -> (b: u8)
        ensures
            b == self.close_char() as u8,
            b < 0x80,
    {
        match self {
            ContainerType::Object => 125,
            ContainerType::Array => 93,
        }
    }

    pub open spec fn open_char(self) -> char {
        match self {
            ContainerType::Object => '{',
            ContainerType::Array => '[',
        }
    }

    pub open spec fn close_char(self) -> char {
        match self {
            ContainerType::Object => '}',
            ContainerType::Array => ']',
        }
    }

    pub fn open_str(&self) -> (s: &'static str)
        ensures
            s@ == seq![self.open_char()],
    {
        proof {
            reveal_strlit("{");
            reveal_strlit("[");
        }
        match self {
            ContainerType::Object => "{",
            ContainerType::Array => "[",
        }
    }

    pub fn close_str(&self) -> (s: &'static str)
        ensures
            s@ == seq![self.close_char()],
    {
        proof {
            reveal_strlit("}");
            reveal_strlit("]");
        }
        match self {
            ContainerType::Object => "}",
            ContainerType::Array => "]",
        }
    }

    pub fn collapsed_preview(&self) -> (s: &'static str)
        ensures
            s@ == seq![self.open_char(), '…', self.close_char()],
    {
        proof {
            reveal_strlit("{…}");
            reveal_strlit("[…]");
        }
        match self {
            ContainerType::Object => "{…}",
            ContainerType::Array => "[…]",
        }
    }
}

#[derive(Copy, Clone, Debug, PartialEq, Eq, Structural)]
pub enum Value {
    Null,
    Boolean,
    Number,
    String,
    EmptyObject,
    EmptyArray,
    OpenContainer {
        container_type: ContainerType,
        collapsed: bool,
        first_child: Index,
        close_index: Index,
    },
    CloseContainer {
        container_type: ContainerType,
        collapsed: bool,
        last_child: Index,
        open_index: Index,
    },
}

impl Value {
    pub open spec fn spec_container(self) -> bool {
        self is OpenContainer || self is CloseContainer
    }

    pub open spec fn spec_collapsed(self) -> bool {
        match self {
            Value::OpenContainer { collapsed, .. } => collapsed,
            Value::CloseContainer { collapsed, .. } => collapsed,
            _ => false,
        }
    }

    pub open spec fn spec_pair(self) -> OptionIndex {
        match self {
            Value::OpenContainer { close_index, .. } => OptionIndex::Index(close_index),
            Value::CloseContainer { open_index, .. } => OptionIndex::Index(open_index),
            _ => OptionIndex::Nil,
        }
    }

    pub open spec fn spec_container_type(self) -> Option<ContainerType> {
        match self {
            Value::OpenContainer { container_type, .. } => Some(container_type),
            Value::CloseContainer { container_type, .. } => Some(container_type),
            _ => None,
        }
    }

    /// This value with its collapsed flag set to `val` (unchanged for primitives).
    pub open spec fn with_collapsed(self, val: bool) -> Value {
        match self {
            Value::OpenContainer { container_type, first_child, close_index, .. } =>
                Value::OpenContainer { container_type, collapsed: val, first_child, close_index },
            Value::CloseContainer { container_type, last_child, open_index, .. } =>
                Value::CloseContainer { container_type, collapsed: val, last_child, open_index },
            _ => self,
        }
    }

    pub fn is_primitive(&self) -> (b: bool)
        ensures
            b == !self.spec_container(),
    {
        !self.is_container()
    }

    pub fn is_container(&self) -> (b: bool)
        ensures
            b == self.spec_container(),
    {
        matches!(self, Value::OpenContainer { .. } | Value::CloseContainer { .. })
    }

    pub fn is_string(&self) -> (b: bool)
        ensures
            b == (*self is String),
    {
        matches!(self, Value::String)
    }

    pub fn container_type(&self) -> (t: Option<ContainerType>)
        ensures
            t == self.spec_container_type(),
    {
        match self {
            Value::OpenContainer { container_type, .. } => Some(*container_type),
            Value::CloseContainer { container_type, .. } => Some(*container_type),
            _ => None,
        }
    }

    pub fn is_opening_of_container(&self) -> (b: bool)
        ensures
            b == (*self is OpenContainer),
    {
        matches!(self, Value::OpenContainer { .. })
    }

    pub fn is_closing_of_container(&self) -> (b: bool)
        ensures
            b == (*self is CloseContainer),
    {
        matches!(self, Value::CloseContainer { .. })
    }

    pub fn is_collapsed(&self) -> (b: bool)
        ensures
            b == self.spec_collapsed(),
    {
        match self {
            Value::OpenContainer { collapsed, .. } => *collapsed,
            Value::CloseContainer { collapsed, .. } => *collapsed,
            _ => false,
        }
    }

    pub fn is_expanded(&self) -> (b: bool)
        ensures
            b == !self.spec_collapsed(),
    {
        !self.is_collapsed()
    }

    pub fn is_array(&self) -> (b: bool)
        ensures
            b == (self.spec_container_type() == Some(ContainerType::Array)),
    {
        match self {
            Value::OpenContainer { container_type: ContainerType::Array, .. } => true,
            Value::CloseContainer { container_type: ContainerType::Array, .. } => true,
            _ => false,
        }
    }

    fn toggle_collapsed(&mut self)
        ensures
            *final(self) == old(self).with_collapsed(!old(self).spec_collapsed()),
    {
        let c = self.is_collapsed();
        self.set_collapsed(!c)
    }

    fn expand(&mut self)
        ensures
            *final(self) == old(self).with_collapsed(false),
    {
        self.set_collapsed(false)
    }

    fn collapse(&mut self)
        ensures
            *final(self) == old(self).with_collapsed(true),
    {
        self.set_collapsed(true)
    }

    fn set_collapsed(&mut self, val: bool)
        ensures
            *final(self) == old(self).with_collapsed(val),
    {
        match self {
            Value::OpenContainer { ref mut collapsed, .. } => *collapsed = val,
            Value::CloseContainer { ref mut collapsed, .. } => *collapsed = val,
            _ => {},
        }
    }

    fn first_child(&self) -> (i: OptionIndex)
        ensures
            i == match *self {
                Value::OpenContainer { first_child, .. } => OptionIndex::Index(first_child),
                _ => OptionIndex::Nil,
            },
    {
        match self {
            Value::OpenContainer { first_child, .. } => OptionIndex::Index(*first_child),
            _ => OptionIndex::Nil,
        }
    }

    fn last_child(&self) -> (i: OptionIndex)
        ensures
            i == match *self {
                Value::CloseContainer { last_child, .. } => OptionIndex::Index(last_child),
                _ => OptionIndex::Nil,
            },
    {
        match self {
            Value::CloseContainer { last_child, .. } => OptionIndex::Index(*last_child),
            _ => OptionIndex::Nil,
        }
    }

    fn pair_index(&self) -> (i: OptionIndex)
        ensures
            i == self.spec_pair(),
    {
        match self {
            Value::OpenContainer { close_index, .. } => OptionIndex::Index(*close_index),
            Value::CloseContainer { open_index, .. } => OptionIndex::Index(*open_index),
            _ => OptionIndex::Nil,
        }
    }
}

#[derive(Debug)]
pub struct Row {
    pub parent: OptionIndex,
    pub prev_sibling: OptionIndex,
    pub next_sibling: OptionIndex,
    pub depth: usize,
    pub index_in_parent: usize,
    pub range: Range<usize>,
    pub key_range: Option<Range<usize>>,
    pub value: Value,
}

impl Row {
    pub fn is_primitive(&self) -> (b: bool)
        ensures
            b == !self.value.spec_container(),
    {
        self.value.is_primitive()
    }

    pub fn is_container(&self) -> (b: bool)
        ensures
            b == self.value.spec_container(),
    {
        self.value.is_container()
    }

    pub fn is_string(&self) -> (b: bool)
        ensures
            b == (self.value is String),
    {
        self.value.is_string()
    }

    pub fn is_opening_of_container(&self) -> (b: bool)
        ensures
            b == (self.value is OpenContainer),
    {
        self.value.is_opening_of_container()
    }

    pub fn is_closing_of_container(&self) -> (b: bool)
        ensures
            b == (self.value is CloseContainer),
    {
        self.value.is_closing_of_container()
    }

    pub fn is_collapsed(&self) -> (b: bool)
        ensures
            b == self.value.spec_collapsed(),
    {
        self.value.is_collapsed()
    }

    pub fn is_expanded(&self) -> (b: bool)
        ensures
            b == !self.value.spec_collapsed(),
    {
        self.value.is_expanded()
    }

    pub fn is_array(&self) -> (b: bool)
        ensures
            b == (self.value.spec_container_type() == Some(ContainerType::Array)),
    {
        self.value.is_array()
    }

    fn expand(&mut self)
        ensures
            *final(self) == (Row { value: old(self).value.with_collapsed(false), ..*old(self) }),
    {
        self.value.expand()
    }

    fn collapse(&mut self)
        ensures
            *final(self) == (Row { value: old(self).value.with_collapsed(true), ..*old(self) }),
    {
        self.value.collapse()
    }

    fn toggle_collapsed(&mut self)
        ensures
            *final(self) == (Row {
                value: old(self).value.with_collapsed(!old(self).value.spec_collapsed()),
                ..*old(self)
            }),
    {
        self.value.toggle_collapsed()
    }

    pub fn first_child(&self) -> (i: OptionIndex)
        ensures
            i == match self.value {
                Value::OpenContainer { first_child, .. } => OptionIndex::Index(first_child),
                _ => OptionIndex::Nil,
            },
    {
        self.value.first_child()
    }

    pub fn last_child(&self) -> (i: OptionIndex)
        ensures
            i == match self.value {
                Value::CloseContainer { last_child, .. } => OptionIndex::Index(last_child),
                _ => OptionIndex::Nil,
            },
    {
        self.value.last_child()
    }

    pub fn pair_index(&self) -> (i: OptionIndex)
        ensures
            i == self.value.spec_pair(),
    {
        self.value.pair_index()
    }

    /// The start of the text a row stands for: its key, if it has one.
    pub open spec fn spec_represented_start(self) -> usize {
        match self.key_range {
            Some(k) => k.start,
            None => self.range.start,
        }
    }

    /// The end of the text a row stands for: only the opening character of an
    /// expanded container, the whole value otherwise.
    pub open spec fn spec_represented_end(self) -> int {
        if self.value.spec_container() && !self.value.spec_collapsed() {
            self.range.start + 1
        } else {
            self.range.end as int
        }
    }

    pub fn range_represented_by_row(&self) -> (r: Range<usize>)
        requires
            self.range.start < usize::MAX,
        ensures
            r.start == self.spec_represented_start(),
            r.end == self.spec_represented_end(),
    {
        let start = match &self.key_range {
            Some(key_range) => key_range.start,
            None => self.range.start,
        };
        let end = if self.is_container() && self.is_expanded() {
            self.range.start + 1
        } else {
            self.range.end
        };
        start..end
    }
}

#[derive(Debug)]
pub struct FlatJson(pub Vec<Row>, pub String, pub usize);

/// A byte range lies within `text`, starting and ending on character boundaries.
pub open spec fn range_in(text: Seq<u8>, r: Range<usize>) -> bool {
    &&& r.start <= r.end <= text.len()
    &&& is_char_boundary(text, r.start as int)
    &&& is_char_boundary(text, r.end as int)
}

/// A byte range lies within `text` and is delimited by one single-byte
/// character at each end.
pub open spec fn delimited_range_in(text: Seq<u8>, r: Range<usize>) -> bool {
    &&& range_in(text, r)
    &&& r.start + 2 <= r.end
    &&& is_char_boundary(text, r.start + 1)
    &&& is_char_boundary(text, r.end - 1)
}

impl FlatJson {
    pub open spec fn rows(self) -> Seq<Row> {
        self.0@
    }

    pub open spec fn text(self) -> Seq<u8> {
        utf8(self.1@)
    }

    pub open spec fn len(self) -> int {
        self.0@.len() as int
    }

    pub open spec fn value(self, i: int) -> Value {
        self.0@[i].value
    }

    /// The well-formedness of a single row.
    pub open spec fn row_wf(self, i: int) -> bool {
        let n = self.len();
        let r = self.0@[i];
        &&& match r.value {
            Value::OpenContainer { container_type, collapsed, first_child, close_index } => {
                &&& i < close_index < n
                &&& first_child < n
                &&& self.value(close_index as int) is CloseContainer
                &&& self.value(close_index as int).spec_pair() == OptionIndex::Index(i as usize)
                &&& self.value(close_index as int).spec_container_type() == Some(container_type)
                &&& self.value(close_index as int).spec_collapsed() == collapsed
                &&& self.0@[close_index as int].depth == r.depth
                &&& forall|j: int| i < j < close_index ==> #[trigger] self.0@[j].depth > r.depth
            },
            Value::CloseContainer { open_index, last_child, .. } => {
                &&& open_index < i
                &&& last_child < n
                &&& self.value(open_index as int) is OpenContainer
                &&& self.value(open_index as int).spec_pair() == OptionIndex::Index(i as usize)
                &&& !(self.value(i - 1) is OpenContainer)
            },
            _ => true,
        }
        &&& match r.parent {
            OptionIndex::Index(p) => p < i && self.value(p as int) is OpenContainer,
            OptionIndex::Nil => true,
        }
        &&& match r.prev_sibling {
            OptionIndex::Index(p) => p < n,
            OptionIndex::Nil => true,
        }
        &&& match r.next_sibling {
            OptionIndex::Index(p) => p < n,
            OptionIndex::Nil => true,
        }
        &&& range_in(self.text(), r.range)
        &&& r.range.start < r.range.end
        &&& (r.value is String ==> delimited_range_in(self.text(), r.range))
        &&& match r.key_range {
            Some(k) => delimited_range_in(self.text(), k),
            None => true,
        }
    }

    /// Row `i` lies one level deeper than its parent; a row without a parent
    /// lies at the top level, at depth zero.
    pub open spec fn depth_follows_parent(self, i: int) -> bool {
        match self.0@[i].parent {
            OptionIndex::Index(p) => self.0@[i].depth == self.0@[p as int].depth + 1,
            OptionIndex::Nil => self.0@[i].depth == 0,
        }
    }

    /// Every row lies one level deeper than its parent, and the rows without
    /// a parent at the top level.
    pub open spec fn depths_follow_parents(self) -> bool {
        forall|i: int| 0 <= i < self.len() ==> #[trigger] self.depth_follows_parent(i)
    }

    /// The depth kept beside the rows is the greatest depth of a row.
    pub open spec fn depth_is_greatest(self) -> bool {
        &&& forall|i: int| 0 <= i < self.len() ==> #[trigger] self.0@[i].depth <= self.2
        &&& exists|i: int| 0 <= i < self.len() && #[trigger] self.0@[i].depth == self.2
    }

    /// Each row starts, in the text, after every row before it.
    pub open spec fn rows_start_in_order(self) -> bool {
        forall|i: int, j: int|
            0 <= i < j < self.len() ==> #[trigger] self.0@[i].range.start < #[trigger] self.0@[j].range.start
    }

    /// Well-formedness: at least one row (and fewer than `NIL`), the last row is no opening of a
    /// container, and every row is well formed.
    pub open spec fn wf(self) -> bool {
        &&& 0 < self.len() < usize::MAX
        &&& !(self.value(self.len() - 1) is OpenContainer)
        &&& forall|i: int| 0 <= i < self.len() ==> #[trigger] self.row_wf(i)
    }

    /// The row that the visible row after `i` is: the row after the closing
    /// of `i` when `i` opens a collapsed container.
    pub open spec fn spec_next_visible_row(self, i: int) -> OptionIndex {
        let j = if self.value(i) is OpenContainer && self.value(i).spec_collapsed() {
            self.value(i).spec_pair()->Index_0 as int
        } else {
            i
        };
        if j == self.len() - 1 {
            OptionIndex::Nil
        } else {
            OptionIndex::Index((j + 1) as usize)
        }
    }

    /// The row that the visible row before `i` is: the opening of the
    /// container that ends just before `i` when that container is collapsed.
    pub open spec fn spec_prev_visible_row(self, i: int) -> OptionIndex {
        if i == 0 {
            OptionIndex::Nil
        } else if self.value(i - 1) is CloseContainer && self.value(i - 1).spec_collapsed() {
            self.value(i - 1).spec_pair()
        } else {
            OptionIndex::Index((i - 1) as usize)
        }
    }

    pub fn last_visible_index(&self) -> (r: Index)
        requires
            self.wf(),
        ensures
            r == (if self.value(self.len() - 1).spec_collapsed() {
                self.value(self.len() - 1).spec_pair()->Index_0
            } else {
                (self.len() - 1) as usize
            }),
    {
        let last_index = self.0.len() - 1;
        let row = &self.0[last_index];
        assert(self.row_wf(last_index as int));
        if row.is_container() && row.is_collapsed() {
            row.pair_index().unwrap()
        } else {
            last_index
        }
    }

    /// Row `j` is an item that can be shown: a primitive value or a
    /// collapsed container, here its closing row.
    pub open spec fn is_visible_item_end(self, j: int) -> bool {
        !self.value(j).spec_container() || (self.value(j) is CloseContainer
            && self.value(j).spec_collapsed())
    }

    /// The last item that can be shown: the last primitive value or collapsed
    /// container, which only closings of expanded containers follow; for a
    /// collapsed container, its opening row.
    pub fn last_visible_item(&self) -> (r: Index)
        requires
            self.wf(),
        ensures
            exists|j: int|
                0 <= j < self.len() && #[trigger] self.is_visible_item_end(j) && (forall|k: int|
                    j < k < self.len() ==> self.value(k) is CloseContainer && !self.value(
                        k,
                    ).spec_collapsed()) && r == (if self.value(j) is CloseContainer {
                    self.value(j).spec_pair()->Index_0
                } else {
                    j as usize
                }),
    {
        let mut last_index = self.0.len() - 1;
        loop
            invariant
                self.wf(),
                last_index < self.len(),
                !(self.value(last_index as int) is OpenContainer),
                forall|k: int|
                    last_index < k < self.len() ==> self.value(k) is CloseContainer
                        && !self.value(k).spec_collapsed(),
            decreases last_index,
        {
            proof {
                assert(self.row_wf(last_index as int));
            }
            let row = &self.0[last_index];
            if row.is_primitive() {
                assert(self.is_visible_item_end(last_index as int));
                return last_index;
            }
            if row.is_closing_of_container() && row.is_collapsed() {
                assert(self.is_visible_item_end(last_index as int));
                return row.pair_index().unwrap();
            }
            last_index = last_index - 1;
        }
    }

    pub fn prev_visible_row(&self, index: Index) -> (r: OptionIndex)
        requires
            self.wf(),
            index <= self.len(),
        ensures
            r == self.spec_prev_visible_row(index as int),
            r matches OptionIndex::Index(j) ==> j < index,
    {
        if index == 0 {
            return OptionIndex::Nil;
        }
        let row = &self.0[index - 1];
        assert(self.row_wf(index - 1));
        if row.is_closing_of_container() && row.is_collapsed() {
            row.pair_index()
        } else {
            OptionIndex::Index(index - 1)
        }
    }

    pub fn next_visible_row(&self, index: Index) -> (r: OptionIndex)
        requires
            self.wf(),
            index < self.len(),
        ensures
            r == self.spec_next_visible_row(index as int),
            r matches OptionIndex::Index(j) ==> index < j < self.len(),
    {
        let mut index = index;
        assert(self.row_wf(index as int));
        if self.0[index].is_opening_of_container() && self.0[index].is_collapsed() {
            index = self.0[index].pair_index().unwrap();
        }
        if index == self.0.len() - 1 {
            return OptionIndex::Nil;
        }
        OptionIndex::Index(index + 1)
    }

    /// The first visible row after `i` that is not the closing of a container.
    pub open spec fn spec_next_item(self, i: int) -> OptionIndex
        decreases self.len() - i,
    {
        match self.spec_next_visible_row(i) {
            OptionIndex::Nil => OptionIndex::Nil,
            OptionIndex::Index(j) => {
                if !(self.value(j as int) is CloseContainer) {
                    OptionIndex::Index(j)
                } else if i < j < self.len() {
                    self.spec_next_item(j as int)
                } else {
                    OptionIndex::Nil
                }
            },
        }
    }

    /// The first visible row before `i` that is not the closing of a container.
    pub open spec fn spec_prev_item(self, i: int) -> OptionIndex
        decreases i,
    {
        match self.spec_prev_visible_row(i) {
            OptionIndex::Nil => OptionIndex::Nil,
            OptionIndex::Index(j) => {
                if !(self.value(j as int) is CloseContainer) {
                    OptionIndex::Index(j)
                } else if 0 <= j < i {
                    self.spec_prev_item(j as int)
                } else {
                    OptionIndex::Nil
                }
            },
        }
    }

    pub fn prev_item(&self, index: Index) -> (r: OptionIndex)
        requires
            self.wf(),
            index <= self.len(),
        ensures
            r == self.spec_prev_item(index as int),
    {
        let mut cur = index;
        loop
            invariant
                self.wf(),
                cur <= self.len(),
                self.spec_prev_item(cur as int) == self.spec_prev_item(index as int),
            decreases cur,
        {
            match self.prev_visible_row(cur) {
                OptionIndex::Nil => return OptionIndex::Nil,
                OptionIndex::Index(i) => {
                    if !self.0[i].is_closing_of_container() {
                        return OptionIndex::Index(i);
                    }
                    cur = i;
                },
            }
        }
    }

    pub fn next_item(&self, index: Index) -> (r: OptionIndex)
        requires
            self.wf(),
            index < self.len(),
        ensures
            r == self.spec_next_item(index as int),
    {
        let mut cur = index;
        loop
            invariant
                self.wf(),
                cur < self.len(),
                self.spec_next_item(cur as int) == self.spec_next_item(index as int),
            decreases self.len() - cur,
        {
            match self.next_visible_row(cur) {
                OptionIndex::Nil => return OptionIndex::Nil,
                OptionIndex::Index(i) => {
                    if !self.0[i].is_closing_of_container() {
                        return OptionIndex::Index(i);
                    }
                    cur = i;
                },
            }
        }
    }

    /// The rows with the collapsed flag of row `i` set to `val`.
    pub open spec fn rows_with_collapsed(rows: Seq<Row>, i: int, val: bool) -> Seq<Row> {
        rows.update(i, Row { value: rows[i].value.with_collapsed(val), ..rows[i] })
    }

    /// The rows with the collapsed flag of row `i`, and of the other end of
    /// its container, set to `val`.
    pub open spec fn spec_set_collapsed(self, i: int, val: bool) -> Seq<Row> {
        Self::rows_set_collapsed(self.0@, i, val)
    }

    /// `rows` with the collapsed flag of row `i`, and of the other end of its
    /// container, set to `val`.
    pub open spec fn rows_set_collapsed(rows: Seq<Row>, i: int, val: bool) -> Seq<Row> {
        let rows1 = match rows[i].value.spec_pair() {
            OptionIndex::Index(p) => Self::rows_with_collapsed(rows, p as int, val),
            OptionIndex::Nil => rows,
        };
        Self::rows_with_collapsed(rows1, i, val)
    }

    /// Row `k` is row `i` or the other end of its container.
    pub open spec fn touched(self, i: int, k: int) -> bool {
        k == i || (self.value(i).spec_pair() matches OptionIndex::Index(p) && p as int == k)
    }

    proof fn lemma_set_collapsed_wf(self, i: int, val: bool, new: FlatJson)
        requires
            self.wf(),
            0 <= i < self.len(),
            new.0@ == self.spec_set_collapsed(i, val),
            new.1@ == self.1@,
        ensures
            new.wf(),
    {
        let n = self.len();
        assert(self.row_wf(i));
        assert forall|k: int| 0 <= k < n implies #[trigger] new.0@[k] == Row {
            value: if self.touched(i, k) { self.0@[k].value.with_collapsed(val) } else { self.0@[k].value },
            ..self.0@[k]
        } by {
            let rows1 = match self.value(i).spec_pair() {
                OptionIndex::Index(p) => Self::rows_with_collapsed(self.0@, p as int, val),
                OptionIndex::Nil => self.0@,
            };
            assert(new.0@ == Self::rows_with_collapsed(rows1, i, val));
            match self.value(i).spec_pair() {
                OptionIndex::Index(p) => {
                    assert(p as int != i);
                    if k == i {
                        assert(new.0@[k] == Row { value: rows1[k].value.with_collapsed(val), ..rows1[k] });
                        assert(rows1[k] == self.0@[k]);
                    } else if k == p as int {
                        assert(new.0@[k] == rows1[k]);
                    } else {
                        assert(new.0@[k] == rows1[k]);
                        assert(rows1[k] == self.0@[k]);
                    }
                },
                OptionIndex::Nil => {},
            }
        }
        assert forall|j: int| 0 <= j < n implies #[trigger] new.row_wf(j) by {
            assert(self.row_wf(j));
            assert(new.0@[j] == Row { value: new.0@[j].value, ..self.0@[j] });
            match self.value(j) {
                Value::OpenContainer { close_index, .. } => {
                    let c = close_index as int;
                    assert(self.row_wf(c));
                    assert(new.0@[c] == Row { value: new.0@[c].value, ..self.0@[c] });
                    if self.touched(i, j) {
                        if j != i {
                            if self.value(i) is OpenContainer {
                                assert(self.value(j) is CloseContainer);
                            }
                            assert(self.value(i) is CloseContainer);
                            assert(self.value(j).spec_pair() == OptionIndex::Index(i as usize));
                            assert(c == i);
                        }
                    }
                    if self.touched(i, c) {
                        if c != i {
                            if self.value(i) is CloseContainer {
                                assert(self.value(c) is OpenContainer);
                            }
                            assert(self.value(i) is OpenContainer);
                            assert(j == i);
                        }
                    }
                    assert forall|k: int| j < k < close_index implies #[trigger] new.0@[k].depth
                        > new.0@[j].depth by {
                        assert(self.0@[k].depth > self.0@[j].depth);
                        assert(new.0@[k] == Row { value: new.0@[k].value, ..self.0@[k] });
                    }
                },
                Value::CloseContainer { open_index, .. } => {
                    let o = open_index as int;
                    assert(self.row_wf(o));
                    assert(new.0@[o] == Row { value: new.0@[o].value, ..self.0@[o] });
                    assert(new.0@[j - 1] == Row { value: new.0@[j - 1].value, ..self.0@[j - 1] });
                },
                _ => {},
            }
            match self.0@[j].parent {
                OptionIndex::Index(p) => {
                    assert(new.0@[p as int] == Row { value: new.0@[p as int].value, ..self.0@[p as int] });
                },
                _ => {},
            }
        }
        assert(new.0@[n - 1] == Row { value: new.0@[n - 1].value, ..self.0@[n - 1] });
    }

    fn set_row_collapsed(&mut self, i: Index, val: bool)
        requires
            i < old(self).len(),
        ensures
            final(self).0@ == Self::rows_with_collapsed(old(self).0@, i as int, val),
            final(self).1 == old(self).1,
            final(self).2 == old(self).2,
    {
        self.0[i].value.set_collapsed(val);
    }

    fn set_collapsed(&mut self, index: Index, val: bool)
        requires
            old(self).wf(),
            index < old(self).len(),
        ensures
            final(self).wf(),
            final(self).0@ == old(self).spec_set_collapsed(index as int, val),
            final(self).1 == old(self).1,
            final(self).2 == old(self).2,
    {
        proof {
            assert(self.row_wf(index as int));
        }
        if let OptionIndex::Index(pair) = self.0[index].pair_index() {
            self.set_row_collapsed(pair, val);
        }
        self.set_row_collapsed(index, val);
        proof {
            old(self).lemma_set_collapsed_wf(index as int, val, *self);
        }
    }

    pub fn expand(&mut self, index: Index)
        requires
            old(self).wf(),
            index < old(self).len(),
        ensures
            final(self).wf(),
            final(self).0@ == old(self).spec_set_collapsed(index as int, false),
            final(self).1 == old(self).1,
            final(self).2 == old(self).2,
    {
        self.set_collapsed(index, false)
    }

    pub fn collapse(&mut self, index: Index)
        requires
            old(self).wf(),
            index < old(self).len(),
        ensures
            final(self).wf(),
            final(self).0@ == old(self).spec_set_collapsed(index as int, true),
            final(self).1 == old(self).1,
            final(self).2 == old(self).2,
    {
        self.set_collapsed(index, true)
    }

    pub fn toggle_collapsed(&mut self, index: Index)
        requires
            old(self).wf(),
            index < old(self).len(),
        ensures
            final(self).wf(),
            final(self).0@ == old(self).spec_set_collapsed(
                index as int,
                !old(self).value(index as int).spec_collapsed(),
            ),
            final(self).1 == old(self).1,
            final(self).2 == old(self).2,
    {
        let collapsed = self.0[index].is_collapsed();
        self.set_collapsed(index, !collapsed)
    }

    /// The spec-level outermost collapsed proper ancestor of row `i`.
    pub open spec fn spec_outermost_collapsed_ancestor(self, i: int) -> Option<int>
        decreases i,
    {
        if 0 <= i < self.len() {
            match self.0@[i].parent {
                OptionIndex::Nil => None,
                OptionIndex::Index(p) => {
                    if p < i {
                        match self.spec_outermost_collapsed_ancestor(p as int) {
                            Some(a) => Some(a),
                            None => if self.value(p as int).spec_collapsed() {
                                Some(p as int)
                            } else {
                                None
                            },
                        }
                    } else {
                        None
                    }
                },
            }
        } else {
            None
        }
    }

    /// Returns the outermost collapsed ancestor of row `index`, or `index`
    /// itself when none of its ancestors is collapsed.
    pub fn first_visible_ancestor(&self, index: Index) -> (r: Index)
        requires
            self.wf(),
            index < self.len(),
        ensures
            r == match self.spec_outermost_collapsed_ancestor(index as int) {
                Some(a) => a as usize,
                None => index,
            },
    {
        let mut cur = index;
        let mut visible_ancestor = index;
        loop
            invariant
                self.wf(),
                cur < self.len(),
                visible_ancestor < self.len(),
                (match self.spec_outermost_collapsed_ancestor(index as int) {
                    Some(a) => a as usize,
                    None => index,
                }) == (match self.spec_outermost_collapsed_ancestor(cur as int) {
                    Some(a) => a as usize,
                    None => visible_ancestor,
                }),
            decreases cur,
        {
            proof {
                assert(self.row_wf(cur as int));
            }
            match self.0[cur].parent {
                OptionIndex::Nil => return visible_ancestor,
                OptionIndex::Index(parent) => {
                    if self.0[parent].is_collapsed() {
                        visible_ancestor = parent;
                    }
                    cur = parent;
                },
            }
        }
    }

    /// The text of row `i`'s key without its delimiters.
    pub open spec fn spec_key_inner(self, k: Range<usize>) -> Seq<u8> {
        self.text().subrange(k.start + 1, k.end - 1)
    }

    /// The part of a path that row `i` adds to the path of its parent, or
    /// `None` when the path type cannot express it.
    pub open spec fn spec_path_segment(self, path_type: PathType, i: int) -> Option<Seq<u8>> {
        let row = self.0@[i];
        match row.key_range {
            Some(k) => {
                let key = self.spec_key_inner(k);
                if self.text()[k.start as int] == 91 {
                    if path_type == PathType::Query {
                        None
                    } else {
                        Some(seq![91u8] + key + seq![93u8])
                    }
                } else if path_type != PathType::Bracket && spec_is_js_identifier(key) {
                    Some(seq![46u8] + key)
                } else if path_type == PathType::Query && row.depth == 1 {
                    Some(seq![46u8, 91u8, 34u8] + key + seq![34u8, 93u8])
                } else {
                    Some(seq![91u8, 34u8] + key + seq![34u8, 93u8])
                }
            },
            None => {
                if row.parent is Nil {
                    if path_type == PathType::DotWithTopLevelIndex && (i != 0
                        || row.next_sibling is Index) {
                        Some(seq![91u8] + decimal(row.index_in_parent as nat) + seq![93u8])
                    } else {
                        Some(Seq::empty())
                    }
                } else if path_type == PathType::Query {
                    if row.depth == 1 {
                        Some(seq![46u8, 91u8, 93u8])
                    } else {
                        Some(seq![91u8, 93u8])
                    }
                } else {
                    Some(seq![91u8] + decimal(row.index_in_parent as nat) + seq![93u8])
                }
            },
        }
    }

    /// The path (as UTF-8 bytes) from the top of the document to row `i`:
    /// the path of its parent followed by its own segment; the closing of a
    /// container has the path of its opening.
    pub open spec fn spec_path(self, path_type: PathType, i: int) -> Option<Seq<u8>>
        decreases i,
    {
        if !(0 <= i < self.len()) {
            None
        } else if self.value(i) is CloseContainer {
            let o = self.value(i).spec_pair()->Index_0 as int;
            if 0 <= o < i {
                self.spec_path(path_type, o)
            } else {
                None
            }
        } else {
            let prefix = match self.0@[i].parent {
                OptionIndex::Index(p) => if p < i {
                    self.spec_path(path_type, p as int)
                } else {
                    None
                },
                OptionIndex::Nil => Some(Seq::empty()),
            };
            match (prefix, self.spec_path_segment(path_type, i)) {
                (Some(a), Some(b)) => Some(a + b),
                _ => None,
            }
        }
    }

    #[verifier::rlimit(40)]
    fn write_path_segment(&self, path_type: PathType, index: Index, buf: &mut String) -> (res:
        Result<(), String>)
        requires
            0 <= index < self.len(),
            self.row_wf(index as int),
            !(self.value(index as int) is CloseContainer),
        ensures
            match res {
                Ok(()) => self.spec_path_segment(path_type, index as int) matches Some(p) && utf8(
                    final(buf)@,
                ) == utf8(old(buf)@) + p,
                Err(e) => self.spec_path_segment(path_type, index as int) is None && e@
                    == "Path to node contains non-string keys not supported in JSON"@,
            },
    {
        let row = &self.0[index];
        let text = self.1.as_str();
        match &row.key_range {
            Some(key_range) => {
                let key = substring(text, key_range.start + 1, key_range.end - 1);
                let bytes = text.as_bytes();
                if bytes[key_range.start] == 91 {
                    if path_type == PathType::Query {
                        return Err(
                            String::from_str("Path to node contains non-string keys not supported in JSON"),
                        );
                    }
                    push_ascii(buf, 91);
                    push_str(buf, key);
                    push_ascii(buf, 93);
                } else if path_type != PathType::Bracket && is_js_identifier(key.as_bytes()) {
                    push_ascii(buf, 46);
                    push_str(buf, key);
                } else {
                    if path_type == PathType::Query && row.depth == 1 {
                        push_ascii(buf, 46);
                    }
                    push_ascii(buf, 91);
                    push_ascii(buf, 34);
                    push_str(buf, key);
                    push_ascii(buf, 34);
                    push_ascii(buf, 93);
                }
            },
            None => {
                if row.parent.is_nil() {
                    if path_type == PathType::DotWithTopLevelIndex && (index != 0
                        || row.next_sibling.is_some()) {
                        push_ascii(buf, 91);
                        push_decimal(buf, row.index_in_parent);
                        push_ascii(buf, 93);
                    }
                } else {
                    match path_type {
                        PathType::Query => {
                            if row.depth == 1 {
                                push_ascii(buf, 46);
                            }
                            push_ascii(buf, 91);
                            push_ascii(buf, 93);
                        },
                        _ => {
                            push_ascii(buf, 91);
                            push_decimal(buf, row.index_in_parent);
                            push_ascii(buf, 93);
                        },
                    }
                }
            },
        }
        proof {
            let seg = self.spec_path_segment(path_type, index as int);
            assert(utf8(buf@) =~= utf8(old(buf)@) + seg->0);
        }
        Ok(())
    }

    fn build_path_to_node_impl(&self, path_type: PathType, index: Index, buf: &mut String) -> (res:
        Result<(), String>)
        requires
            self.wf(),
            index < self.len(),
        ensures
            match res {
                Ok(()) => self.spec_path(path_type, index as int) matches Some(p) && utf8(
                    final(buf)@,
                ) == utf8(old(buf)@) + p,
                Err(e) => self.spec_path(path_type, index as int) is None && e@
                    == "Path to node contains non-string keys not supported in JSON"@,
            },
        decreases index,
    {
        proof {
            assert(self.row_wf(index as int));
        }
        let row = &self.0[index];
        if row.is_closing_of_container() {
            return self.build_path_to_node_impl(path_type, row.pair_index().unwrap(), buf);
        }
        let ghost start = utf8(buf@);
        if let OptionIndex::Index(parent_index) = row.parent {
            self.build_path_to_node_impl(path_type, parent_index, buf)?;
        }
        let ghost mid = utf8(buf@);
        assert(self.row_wf(index as int));
        self.write_path_segment(path_type, index, buf)?;
        proof {
            let seg = self.spec_path_segment(path_type, index as int);
            assert(utf8(buf@) =~= mid + seg->0);
        }
        Ok(())
    }

    /// Builds the path to row `index` in the style `path_type`.
    pub fn build_path_to_node(&self, path_type: PathType, index: Index) -> (res: Result<
        String,
        String,
    >)
        requires
            self.wf(),
            index < self.len(),
        ensures
            (self.0@[index as int].parent is Nil && (path_type == PathType::Dot || path_type
                == PathType::Bracket)) ==> (res matches Err(e) && e@
                == "Cannot build path to top-level element"@),
            (self.0@[index as int].parent is Nil && path_type == PathType::Query) ==> (res matches Ok(
                s,
            ) && s@ == "."@),
            !(self.0@[index as int].parent is Nil && path_type != PathType::DotWithTopLevelIndex)
                ==> match res {
                Ok(s) => self.spec_path(path_type, index as int) == Some(utf8(s@)),
                Err(e) => self.spec_path(path_type, index as int) is None && e@
                    == "Path to node contains non-string keys not supported in JSON"@,
            },
    {
        let mut buf = String::new();
        if self.0[index].parent.is_nil() {
            match path_type {
                PathType::Dot | PathType::Bracket => {
                    return Err(String::from_str("Cannot build path to top-level element"));
                },
                PathType::Query => {
                    return Ok(String::from_str("."));
                },
                PathType::DotWithTopLevelIndex => {},
            }
        }
        proof {
            assert(utf8(buf@) =~= Seq::<u8>::empty());
        }
        match self.build_path_to_node_impl(path_type, index, &mut buf) {
            Ok(()) => {
                proof {
                    let p = self.spec_path(path_type, index as int)->0;
                    assert(utf8(buf@) =~= p);
                }
                Ok(buf)
            },
            Err(e) => Err(e),
        }
    }

    /// Whether the pretty-printed line of row `i` ends with a comma.
    pub open spec fn spec_trailing_comma(self, i: int) -> bool {
        let row = self.0@[i];
        match row.value {
            Value::OpenContainer { .. } => false,
            Value::CloseContainer { open_index, .. } => row.parent is Index && self.0@[
                open_index as int
            ].next_sibling is Index,
            _ => row.parent is Index && row.next_sibling is Index,
        }
    }

    /// The value part of the pretty-printed line of row `i`.
    pub open spec fn spec_value_text(self, i: int) -> Seq<u8> {
        let row = self.0@[i];
        match row.value {
            Value::OpenContainer { container_type, .. } => seq![container_type.open_char() as u8],
            Value::CloseContainer { container_type, .. } => seq![container_type.close_char() as u8],
            _ => self.text().subrange(row.range.start as int, row.range.end as int),
        }
    }

    /// The pretty-printed line of row `i`, indented relative to depth `offset`.
    pub open spec fn spec_pretty_line(self, i: int, offset: int) -> Seq<u8> {
        let row = self.0@[i];
        spaces((2 * (row.depth - offset)) as nat) + match row.key_range {
            Some(k) => self.text().subrange(k.start as int, k.end as int) + seq![58u8, 32u8],
            None => Seq::empty(),
        } + self.spec_value_text(i) + (if self.spec_trailing_comma(i) {
            seq![44u8]
        } else {
            Seq::empty()
        }) + seq![10u8]
    }

    /// The pretty-printed lines of rows `start` up to (excluding) `end`.
    pub open spec fn spec_pretty_lines(self, start: int, end: int, offset: int) -> Seq<u8>
        decreases end - start,
    {
        if end <= start {
            Seq::empty()
        } else {
            self.spec_pretty_lines(start, end - 1, offset) + self.spec_pretty_line(end - 1, offset)
        }
    }

    fn trailing_comma(&self, i: Index) -> (b: bool)
        requires
            i < self.len(),
            self.row_wf(i as int),
        ensures
            b == self.spec_trailing_comma(i as int),
    {
        let row = &self.0[i];
        if row.value.is_opening_of_container() {
            false
        } else if row.value.is_closing_of_container() {
            row.parent.is_some() && self.0[row.pair_index().unwrap()].next_sibling.is_some()
        } else {
            row.parent.is_some() && row.next_sibling.is_some()
        }
    }

    fn write_value_text(&self, buf: &mut String, i: Index)
        requires
            i < self.len(),
            self.row_wf(i as int),
        ensures
            utf8(final(buf)@) == utf8(old(buf)@) + self.spec_value_text(i as int),
    {
        let row = &self.0[i];
        match row.value.container_type() {
            Some(container_type) => {
                if row.value.is_opening_of_container() {
                    push_ascii(buf, container_type.open_byte());
                } else {
                    push_ascii(buf, container_type.close_byte());
                }
            },
            None => {
                push_str(buf, substring(self.1.as_str(), row.range.start, row.range.end));
            },
        }
        proof {
            assert(utf8(buf@) =~= utf8(old(buf)@) + self.spec_value_text(i as int));
        }
    }

    fn write_indent(buf: &mut String, depth: usize, offset: usize)
        requires
            depth >= offset,
        ensures
            utf8(final(buf)@) == utf8(old(buf)@) + spaces((2 * (depth - offset)) as nat),
    {
        let mut d: usize = offset;
        proof {
            assert(spaces(0) =~= Seq::<u8>::empty());
            assert(utf8(buf@) =~= utf8(old(buf)@) + spaces(0));
        }
        while d < depth
            invariant
                offset <= d <= depth,
                utf8(buf@) == utf8(old(buf)@) + spaces((2 * (d - offset)) as nat),
            decreases depth - d,
        {
            push_ascii(buf, 32);
            push_ascii(buf, 32);
            proof {
                lemma_spaces_push2((2 * (d - offset)) as nat);
                assert(utf8(buf@) =~= utf8(old(buf)@) + spaces((2 * (d + 1 - offset)) as nat));
            }
            d = d + 1;
        }
    }

    fn write_pretty_line(&self, buf: &mut String, i: Index, offset: usize)
        requires
            i < self.len(),
            self.row_wf(i as int),
            self.0@[i as int].depth >= offset,
        ensures
            utf8(final(buf)@) == utf8(old(buf)@) + self.spec_pretty_line(i as int, offset as int),
    {
        let row = &self.0[i];
        Self::write_indent(buf, row.depth, offset);
        if let Some(key_range) = &row.key_range {
            push_str(buf, substring(self.1.as_str(), key_range.start, key_range.end));
            push_ascii(buf, 58);
            push_ascii(buf, 32);
        }
        let ghost after_key = utf8(buf@);
        self.write_value_text(buf, i);
        if self.trailing_comma(i) {
            push_ascii(buf, 44);
        }
        push_ascii(buf, 10);
        proof {
            assert(utf8(buf@) =~= utf8(old(buf)@) + self.spec_pretty_line(i as int, offset as int));
        }
    }

    /// The whole document pretty printed: one line per row, indented by two
    /// spaces per level of depth.
    pub fn pretty_printed(&self) -> (s: String)
        requires
            self.wf(),
        ensures
            utf8(s@) == self.spec_pretty_lines(0, self.len(), 0),
    {
        let mut buf = String::new();
        let mut i: usize = 0;
        proof {
            assert(utf8(buf@) =~= Seq::<u8>::empty());
        }
        while i < self.0.len()
            invariant
                self.wf(),
                i <= self.len(),
                utf8(buf@) == self.spec_pretty_lines(0, i as int, 0),
            decreases self.len() - i,
        {
            assert(self.row_wf(i as int));
            self.write_pretty_line(&mut buf, i, 0);
            i = i + 1;
        }
        buf
    }

    /// The pretty-printed form of one value: the text of a primitive, or the
    /// lines of a container (from either of its ends) with its own depth as
    /// indentation zero.
    #[verifier::rlimit(40)]
    pub fn pretty_printed_value(&self, value_index: Index) -> (res: Result<String, std::fmt::Error>)
        requires
            self.wf(),
            value_index < self.len(),
        ensures
            res matches Ok(s) && utf8(s@) == (match self.value(value_index as int) {
                Value::OpenContainer { container_type, close_index, .. } => seq![
                    container_type.open_char() as u8,
                    10u8,
                ] + self.spec_pretty_lines(
                    value_index + 1,
                    close_index as int,
                    self.0@[value_index as int].depth as int,
                ) + seq![container_type.close_char() as u8, 10u8],
                Value::CloseContainer { container_type, open_index, .. } => seq![
                    container_type.open_char() as u8,
                    10u8,
                ] + self.spec_pretty_lines(
                    open_index + 1,
                    value_index as int,
                    self.0@[value_index as int].depth as int,
                ) + seq![container_type.close_char() as u8, 10u8],
                _ => self.text().subrange(
                    self.0@[value_index as int].range.start as int,
                    self.0@[value_index as int].range.end as int,
                ),
            }),
    {
        assert(self.row_wf(value_index as int));
        let row = &self.0[value_index];
        if row.is_primitive() {
            let mut buf = String::new();
            push_str(&mut buf, substring(self.1.as_str(), row.range.start, row.range.end));
            proof {
                assert(utf8(buf@) =~= self.text().subrange(row.range.start as int, row.range.end as int));
            }
            return Ok(buf);
        }
        let mut buf = String::new();
        let container_type = row.value.container_type().unwrap();
        let depth_offset = row.depth;
        let pair_index = row.pair_index().unwrap();
        assert(self.row_wf(pair_index as int));
        let start_index = if value_index < pair_index { value_index } else { pair_index };
        let end_index = if value_index < pair_index { pair_index } else { value_index };
        assert(self.0@[end_index as int].depth == self.0@[start_index as int].depth);
        proof {
            assert(utf8(buf@) =~= Seq::<u8>::empty());
        }
        push_ascii(&mut buf, container_type.open_byte());
        push_ascii(&mut buf, 10);
        let ghost head = utf8(buf@);
        let mut index = start_index + 1;
        proof {
            assert(head + self.spec_pretty_lines(start_index + 1, index as int, depth_offset as int) =~= head);
        }
        while index < end_index
            invariant
                self.wf(),
                start_index < index <= end_index < self.len(),
                self.row_wf(start_index as int),
                self.value(start_index as int) is OpenContainer,
                self.value(start_index as int).spec_pair() == OptionIndex::Index(end_index),
                depth_offset == self.0@[start_index as int].depth,
                utf8(buf@) == head + self.spec_pretty_lines(
                    start_index + 1,
                    index as int,
                    depth_offset as int,
                ),
            decreases end_index - index,
        {
            assert(self.row_wf(index as int));
            assert(self.0@[index as int].depth > depth_offset);
            self.write_pretty_line(&mut buf, index, depth_offset);
            proof {
                assert(utf8(buf@) =~= head + self.spec_pretty_lines(
                    start_index + 1,
                    index + 1,
                    depth_offset as int,
                ));
            }
            index = index + 1;
        }
        push_ascii(&mut buf, container_type.close_byte());
        push_ascii(&mut buf, 10);
        Ok(buf)
    }

    /// Moving to the next visible row and then back to the previous visible
    /// row returns to where it started, unless it started on the closing of a
    /// collapsed container.
    pub proof fn law_next_then_prev_visible_row(self, i: int)
        requires
            self.wf(),
            0 <= i < self.len(),
            !(self.value(i) is CloseContainer && self.value(i).spec_collapsed()),
        ensures
            self.spec_next_visible_row(i) matches OptionIndex::Index(j) ==> self.spec_prev_visible_row(
                j as int,
            ) == OptionIndex::Index(i as usize),
    {
        assert(self.row_wf(i));
        if self.value(i) is OpenContainer {
            let c = self.value(i).spec_pair()->Index_0 as int;
            assert(self.row_wf(c));
        }
    }

    /// Moving to the previous visible row and then forward to the next visible
    /// row returns to where it started, unless it started right after the
    /// opening of a collapsed container.
    pub proof fn law_prev_then_next_visible_row(self, j: int)
        requires
            self.wf(),
            0 < j < self.len(),
            !(self.value(j - 1) is OpenContainer && self.value(j - 1).spec_collapsed()),
        ensures
            self.spec_prev_visible_row(j) matches OptionIndex::Index(i) ==> self.spec_next_visible_row(
                i as int,
            ) == OptionIndex::Index(j as usize),
    {
        assert(self.row_wf(j - 1));
        if self.value(j - 1) is CloseContainer {
            let o = self.value(j - 1).spec_pair()->Index_0 as int;
            assert(self.row_wf(o));
        }
    }

    /// Row `i` lies inside the collapsed container that opens at `o`, its
    /// closing row included.
    pub open spec fn hidden_by(self, o: int, i: int) -> bool {
        &&& self.value(o) is OpenContainer
        &&& self.value(o).spec_collapsed()
        &&& o < i <= self.value(o).spec_pair()->Index_0
    }

    /// Row `i` shows: no collapsed container hides it.
    pub open spec fn row_shown(self, i: int) -> bool {
        forall|o: int| 0 <= o < self.len() ==> !#[trigger] self.hidden_by(o, i)
    }

    /// The visible row after a row that shows shows too.
    proof fn lemma_next_visible_row_shown(self, r: int)
        requires
            self.wf(),
            0 <= r < self.len(),
            self.row_shown(r),
        ensures
            self.spec_next_visible_row(r) matches OptionIndex::Index(s) ==> self.row_shown(s as int),
    {
        assert(self.row_wf(r));
        if let OptionIndex::Index(s) = self.spec_next_visible_row(r) {
            let s = s as int;
            assert forall|o: int| 0 <= o < self.len() implies !#[trigger] self.hidden_by(o, s) by {
                if self.hidden_by(o, s) {
                    assert(self.row_wf(o));
                    let co = self.value(o).spec_pair()->Index_0 as int;
                    if o < r {
                        assert(self.hidden_by(o, r));
                    } else if o == r {
                    } else {
                        let cr = self.value(r).spec_pair()->Index_0 as int;
                        assert(self.row_wf(cr));
                        assert(o < cr);
                        assert(self.0@[o].depth > self.0@[r].depth);
                        assert(self.0@[cr].depth > self.0@[o].depth);
                    }
                }
            }
        }
    }

    /// Walking on from `r`, which shows and is `i` or a closing row after
    /// the item `i`, the next item steps back to `i`.
    proof fn lemma_next_item_then_prev(self, i: int, r: int)
        requires
            self.wf(),
            0 <= i <= r < self.len(),
            self.row_shown(r),
            !(self.value(i) is CloseContainer),
            r == i || (self.value(r) is CloseContainer && self.spec_prev_item(r) == OptionIndex::Index(
                i as usize,
            )),
        ensures
            self.spec_next_item(r) matches OptionIndex::Index(j) ==> self.spec_prev_item(j as int)
                == OptionIndex::Index(i as usize),
        decreases self.len() - r,
    {
        assert(self.row_wf(r));
        if self.value(r) is CloseContainer && self.value(r).spec_collapsed() {
            let o = self.value(r).spec_pair()->Index_0 as int;
            assert(self.row_wf(o));
            assert(self.hidden_by(o, r));
        }
        if let OptionIndex::Index(s) = self.spec_next_visible_row(r) {
            let s = s as int;
            self.law_next_then_prev_visible_row(r);
            self.lemma_next_visible_row_shown(r);
            assert(r < s < self.len()) by {
                if self.value(r) is OpenContainer {
                    let c = self.value(r).spec_pair()->Index_0 as int;
                    assert(self.row_wf(c));
                }
            }
            assert(self.spec_prev_item(s) == OptionIndex::Index(i as usize));
            if self.value(s) is CloseContainer {
                self.lemma_next_item_then_prev(i, s);
            }
        }
    }

    /// Moving to the next item and then back to the previous item returns
    /// to an item that shows.
    pub proof fn law_next_item_then_prev_item(self, i: int)
        requires
            self.wf(),
            0 <= i < self.len(),
            self.row_shown(i),
            !(self.value(i) is CloseContainer),
        ensures
            self.spec_next_item(i) matches OptionIndex::Index(j) ==> self.spec_prev_item(j as int)
                == OptionIndex::Index(i as usize),
    {
        self.lemma_next_item_then_prev(i, i);
    }

    /// From a row after which only closings of expanded containers come,
    /// there is no next item.
    proof fn lemma_no_next_item_among_closings(self, m: int)
        requires
            self.wf(),
            0 <= m < self.len(),
            !(self.value(m) is OpenContainer),
            forall|k: int| m < k < self.len() ==> #[trigger] self.value(k) is CloseContainer && !self.value(
                k,
            ).spec_collapsed(),
        ensures
            self.spec_next_item(m) == OptionIndex::Nil,
        decreases self.len() - m,
    {
        if m + 1 < self.len() {
            assert(self.value(m + 1) is CloseContainer);
            self.lemma_no_next_item_among_closings(m + 1);
        }
    }

    /// The item that `last_visible_item` gives (the last primitive value or
    /// collapsed container, which only closings of expanded containers
    /// follow; for a collapsed container its opening) shows, is no closing
    /// row, and has no next item.
    pub proof fn law_last_visible_item_is_last(self, j: int)
        requires
            self.wf(),
            0 <= j < self.len(),
            self.is_visible_item_end(j),
            forall|k: int| j < k < self.len() ==> #[trigger] self.value(k) is CloseContainer && !self.value(
                k,
            ).spec_collapsed(),
        ensures
            ({
                let r = if self.value(j) is CloseContainer {
                    self.value(j).spec_pair()->Index_0 as int
                } else {
                    j
                };
                &&& 0 <= r < self.len()
                &&& self.row_shown(r)
                &&& !(self.value(r) is CloseContainer)
                &&& self.spec_next_item(r) == OptionIndex::Nil
            }),
    {
        assert(self.row_wf(j));
        let r = if self.value(j) is CloseContainer {
            self.value(j).spec_pair()->Index_0 as int
        } else {
            j
        };
        assert(self.row_wf(r));
        assert forall|o: int| 0 <= o < self.len() implies !#[trigger] self.hidden_by(o, r) by {
            if self.hidden_by(o, r) {
                assert(self.row_wf(o));
                let co = self.value(o).spec_pair()->Index_0 as int;
                assert(self.row_wf(co));
                if co > j {
                    assert(self.value(co) is CloseContainer && !self.value(co).spec_collapsed());
                } else if r == j {
                } else {
                    assert(r < co);
                    assert(self.0@[co].depth > self.0@[r].depth);
                    assert(self.0@[r].depth > self.0@[o].depth);
                }
            }
        }
        if j + 1 < self.len() {
            assert(self.value(j + 1) is CloseContainer);
            self.lemma_no_next_item_among_closings(j + 1);
        }
    }

    /// Row `i` (for a closing row, its opening), or one of its ancestors,
    /// has a key written in square brackets.
    pub open spec fn bracket_key_on_chain(self, i: int) -> bool
        decreases i,
    {
        if !(0 <= i < self.len()) {
            false
        } else if self.value(i) is CloseContainer {
            let o = self.value(i).spec_pair()->Index_0 as int;
            if 0 <= o < i {
                self.bracket_key_on_chain(o)
            } else {
                false
            }
        } else {
            ||| (self.0@[i].key_range matches Some(k) && self.text()[k.start as int] == 91)
            ||| match self.0@[i].parent {
                OptionIndex::Index(p) => p < i && self.bracket_key_on_chain(p as int),
                OptionIndex::Nil => false,
            }
        }
    }

    /// A path to a node can always be built, except a query path through a
    /// key written in square brackets.
    pub proof fn law_path_fails_only_on_bracket_keys(self, path_type: PathType, i: int)
        requires
            self.wf(),
            0 <= i < self.len(),
        ensures
            self.spec_path(path_type, i) is None <==> (path_type == PathType::Query
                && self.bracket_key_on_chain(i)),
        decreases i,
    {
        assert(self.row_wf(i));
        if self.value(i) is CloseContainer {
            let o = self.value(i).spec_pair()->Index_0 as int;
            self.law_path_fails_only_on_bracket_keys(path_type, o);
        } else {
            if let OptionIndex::Index(p) = self.0@[i].parent {
                self.law_path_fails_only_on_bracket_keys(path_type, p as int);
            }
        }
    }

    /// The visible row before a row that shows shows too.
    proof fn lemma_prev_visible_row_shown(self, j: int)
        requires
            self.wf(),
            0 <= j < self.len(),
            self.row_shown(j),
        ensures
            self.spec_prev_visible_row(j) matches OptionIndex::Index(r) ==> self.row_shown(r as int),
    {
        if let OptionIndex::Index(r) = self.spec_prev_visible_row(j) {
            let r = r as int;
            assert(self.row_wf(j - 1));
            assert forall|o: int| 0 <= o < self.len() implies !#[trigger] self.hidden_by(o, r) by {
                if self.hidden_by(o, r) {
                    assert(self.row_wf(o));
                    let co = self.value(o).spec_pair()->Index_0 as int;
                    assert(self.row_wf(co));
                    if co >= j {
                        assert(self.hidden_by(o, j));
                    } else if co == j - 1 {
                        if r == j - 1 {
                        } else {
                            assert(self.value(j - 1).spec_pair() == OptionIndex::Index(o as usize));
                        }
                    } else {
                        assert(self.row_wf(r));
                        assert(self.value(r).spec_pair() == OptionIndex::Index((j - 1) as usize));
                        assert(r < co);
                        assert(self.0@[co].depth > self.0@[r].depth);
                        assert(self.0@[r].depth > self.0@[o].depth);
                    }
                }
            }
        }
    }

    /// Walking back from a row that shows, the previous item shows.
    proof fn lemma_prev_item_shown(self, j: int)
        requires
            self.wf(),
            0 <= j < self.len(),
            self.row_shown(j),
        ensures
            self.spec_prev_item(j) matches OptionIndex::Index(k) ==> self.row_shown(k as int) && !(self.value(
                k as int,
            ) is CloseContainer),
        decreases j,
    {
        self.lemma_prev_visible_row_shown(j);
        if let OptionIndex::Index(r) = self.spec_prev_visible_row(j) {
            if self.value(r as int) is CloseContainer && 0 <= r < j {
                self.lemma_prev_item_shown(r as int);
            }
        }
    }

    /// The previous item of a row that shows is an item that shows: no
    /// closing row, inside no collapsed container.
    pub proof fn law_prev_item_shows(self, j: int)
        requires
            self.wf(),
            0 <= j < self.len(),
            self.row_shown(j),
        ensures
            self.spec_prev_item(j) matches OptionIndex::Index(k) ==> 0 <= k < self.len() && self.row_shown(
                k as int,
            ) && !(self.value(k as int) is CloseContainer),
    {
        self.lemma_prev_item_shown(j);
        self.lemma_prev_item_below(j);
    }

    /// The previous item comes before the row.
    proof fn lemma_prev_item_below(self, j: int)
        requires
            self.wf(),
            0 <= j <= self.len(),
        ensures
            self.spec_prev_item(j) matches OptionIndex::Index(k) ==> k < j,
        decreases j,
    {
        if j > 0 {
            assert(self.row_wf(j - 1));
        }
        if let OptionIndex::Index(r) = self.spec_prev_visible_row(j) {
            if self.value(r as int) is CloseContainer && 0 <= r < j {
                self.lemma_prev_item_below(r as int);
            }
        }
    }

    /// The next item of a row that shows is an item that shows: after the
    /// row, no closing row, inside no collapsed container.
    pub proof fn law_next_item_shows(self, r: int)
        requires
            self.wf(),
            0 <= r < self.len(),
            self.row_shown(r),
        ensures
            self.spec_next_item(r) matches OptionIndex::Index(k) ==> r < k < self.len() && self.row_shown(
                k as int,
            ) && !(self.value(k as int) is CloseContainer),
        decreases self.len() - r,
    {
        assert(self.row_wf(r));
        self.lemma_next_visible_row_shown(r);
        if let OptionIndex::Index(s) = self.spec_next_visible_row(r) {
            if self.value(r) is OpenContainer {
                let c = self.value(r).spec_pair()->Index_0 as int;
                assert(self.row_wf(c));
            }
            if self.value(s as int) is CloseContainer && r < s < self.len() {
                self.law_next_item_shows(s as int);
            }
        }
    }

    /// Walking back from `r`, which shows and is `j` or a closing row before
    /// the item `j`, the previous item steps forward to `j`.
    proof fn lemma_prev_item_then_next(self, j: int, r: int)
        requires
            self.wf(),
            0 <= r <= j < self.len(),
            self.row_shown(r),
            !(self.value(j) is CloseContainer),
            r == j || (self.value(r) is CloseContainer && self.spec_next_item(r) == OptionIndex::Index(
                j as usize,
            )),
        ensures
            self.spec_prev_item(r) matches OptionIndex::Index(i) ==> self.spec_next_item(i as int)
                == OptionIndex::Index(j as usize),
        decreases r,
    {
        if r > 0 {
            assert(self.row_wf(r - 1));
            if self.value(r - 1) is OpenContainer && self.value(r - 1).spec_collapsed() {
                assert(self.hidden_by(r - 1, r));
            }
            self.law_prev_then_next_visible_row(r);
        }
        self.lemma_prev_visible_row_shown(r);
        self.lemma_prev_item_below(r);
        if let OptionIndex::Index(s) = self.spec_prev_visible_row(r) {
            let s = s as int;
            assert(0 <= s < r) by {
                if self.value(r - 1) is CloseContainer {
                    let o = self.value(r - 1).spec_pair()->Index_0 as int;
                    assert(self.row_wf(o));
                }
            }
            assert(self.row_wf(s));
            assert(self.spec_next_item(s) == OptionIndex::Index(j as usize));
            if self.value(s) is CloseContainer {
                self.lemma_prev_item_then_next(j, s);
            }
        }
    }

    /// Moving to the previous item and then on to the next item returns to
    /// an item that shows.
    pub proof fn law_prev_item_then_next_item(self, j: int)
        requires
            self.wf(),
            0 <= j < self.len(),
            self.row_shown(j),
            !(self.value(j) is CloseContainer),
        ensures
            self.spec_prev_item(j) matches OptionIndex::Index(i) ==> self.spec_next_item(i as int)
                == OptionIndex::Index(j as usize),
    {
        self.lemma_prev_item_then_next(j, j);
    }

    /// Expanding a row that collapsing left collapsed gives back the rows as
    /// they were before, when the row was expanded: the two calls change
    /// nothing but the flags of the row and of the other end of its
    /// container, and expand undoes collapse.
    pub proof fn law_expand_undoes_collapse(self, i: int)
        requires
            self.wf(),
            0 <= i < self.len(),
            !self.value(i).spec_collapsed(),
        ensures
            Self::rows_set_collapsed(self.spec_set_collapsed(i, true), i, false) == self.0@,
    {
        self.law_toggle_twice(i);
    }

    /// In the dot, query and dot-with-top-level-index styles, a quoted object
    /// key whose text matches `^[_$a-zA-Z][_$a-zA-Z0-9]*$` adds exactly a dot
    /// and the key to the path of its parent: the path to the row is the
    /// parent's path, `.`, then the key, whenever the parent has a path.
    pub proof fn law_identifier_keys_follow_a_dot(self, path_type: PathType, i: int)
        requires
            self.wf(),
            0 <= i < self.len(),
            path_type != PathType::Bracket,
            !(self.value(i) is CloseContainer),
            self.0@[i].key_range matches Some(k) && self.text()[k.start as int] == 34 && ({
                let key = self.text().subrange(k.start + 1, k.end - 1);
                &&& key.len() > 0
                &&& (key[0] == 95 || key[0] == 36 || (97 <= key[0] <= 122) || (65 <= key[0] <= 90))
                &&& forall|j: int|
                    1 <= j < key.len() ==> (#[trigger] key[j] == 95 || key[j] == 36 || (97 <= key[j] <= 122)
                        || (65 <= key[j] <= 90) || (48 <= key[j] <= 57))
            }),
        ensures
            ({
                let k = self.0@[i].key_range->Some_0;
                let key = self.text().subrange(k.start + 1, k.end - 1);
                &&& self.spec_path_segment(path_type, i) == Some(seq![46u8] + key)
                &&& self.0@[i].parent matches OptionIndex::Index(p) ==> self.spec_path(path_type, i) == match self.spec_path(
                    path_type,
                    p as int,
                ) {
                    Some(a) => Some(a + (seq![46u8] + key)),
                    None => None,
                }
            }),
    {
        let k = self.0@[i].key_range->Some_0;
        let key = self.text().subrange(k.start + 1, k.end - 1);
        assert(self.row_wf(i));
        assert(self.spec_key_inner(k) == key);
        assert(crate::lineprinter::spec_is_js_identifier(key));
    }

    /// The last visible row has no visible row after it.
    pub proof fn law_last_visible_index_is_last(self)
        requires
            self.wf(),
        ensures
            ({
                let l = self.len() - 1;
                let r = if self.value(l).spec_collapsed() {
                    self.value(l).spec_pair()->Index_0 as int
                } else {
                    l
                };
                &&& 0 <= r < self.len()
                &&& self.spec_next_visible_row(r) == OptionIndex::Nil
            }),
    {
        let l = self.len() - 1;
        assert(self.row_wf(l));
        if self.value(l).spec_collapsed() {
            let o = self.value(l).spec_pair()->Index_0 as int;
            assert(self.row_wf(o));
        }
    }

    /// Toggling a row twice leaves every row as it was.
    pub proof fn law_toggle_twice(self, i: int)
        requires
            self.wf(),
            0 <= i < self.len(),
        ensures
            ({
                let c = self.value(i).spec_collapsed();
                Self::rows_set_collapsed(Self::rows_set_collapsed(self.0@, i, !c), i, c) == self.0@
            }),
    {
        let c = self.value(i).spec_collapsed();
        assert(self.row_wf(i));
        let once = Self::rows_set_collapsed(self.0@, i, !c);
        let twice = Self::rows_set_collapsed(once, i, c);
        match self.value(i).spec_pair() {
            OptionIndex::Index(p) => {
                assert(self.row_wf(p as int));
                assert(p as int != i);
            },
            OptionIndex::Nil => {},
        }
        assert(twice =~= self.0@);
    }

    /// Expanding or collapsing a row sets the collapsed flag of both ends of its
    /// container and changes nothing else.
    pub proof fn law_set_collapsed_both_ends(self, i: int, val: bool)
        requires
            self.wf(),
            0 <= i < self.len(),
            self.value(i).spec_container(),
        ensures
            ({
                let rows = self.spec_set_collapsed(i, val);
                let p = self.value(i).spec_pair()->Index_0 as int;
                &&& rows.len() == self.len()
                &&& rows[i].value.spec_collapsed() == val
                &&& rows[p].value.spec_collapsed() == val
                &&& forall|k: int| 0 <= k < self.len() && k != i && k != p ==> rows[k] == self.0@[k]
            }),
    {
        assert(self.row_wf(i));
        let p = self.value(i).spec_pair()->Index_0 as int;
        assert(self.row_wf(p));
        assert(p != i);
    }
}

/// Parses JSON text, one or more top-level values, into its flattened form,
/// which is a well-formed document.
pub fn parse_top_level_json(json: String) -> (r: Result<FlatJson, String>)
    requires
        utf8(json@).len() <= usize::MAX / 4,
    ensures
        match spec_parse(utf8(json@)) {
            Ok(s) => r matches Ok(fj) && fj.0@ == s.rows && fj.text() == s.text && fj.2
                == s.max_depth,
            Err(e) => r matches Err(m) && utf8(m@) == e.spec_message(),
        },
        r matches Ok(fj) ==> fj.wf() && fj.depths_follow_parents() && fj.rows_start_in_order()
            && fj.depth_is_greatest(),
{
    let ghost b = utf8(json@);
    proof {
        vstd::utf8::encode_utf8_valid_utf8(json@);
        crate::wellformed::lemma_spec_parse_sound(b);
    }
    match parse(json) {
        Ok((rows, pretty, depth)) => {
            let fj = FlatJson(rows, pretty, depth);
            proof {
                if let Ok(s) = spec_parse(b) {
                    crate::wellformed::lemma_sound_document_wf(b, s, fj);
                }
            }
            Ok(fj)
        },
        Err(e) => Err(e),
    }
}

/// Byte `i` of `bs` may not stand in a bare sexp atom: whitespace, a control
/// byte, a byte outside ASCII, a character of sexp syntax, or the start or end
/// of a block comment.
pub open spec fn sexp_special(bs: Seq<u8>, i: int) -> bool {
    let c = bs[i];
    ||| c <= 32 || c >= 127
    ||| c == 34 || c == 40 || c == 41 || c == 59 || c == 92
    ||| (c == 124 && i + 1 < bs.len() && bs[i + 1] == 35)
    ||| (c == 35 && i + 1 < bs.len() && bs[i + 1] == 124)
}

/// An atom must be quoted when it is empty or holds a special byte.
pub open spec fn spec_needs_escaping(bs: Seq<u8>) -> bool {
    bs.len() == 0 || exists|i: int| 0 <= i < bs.len() && #[trigger] sexp_special(bs, i)
}

/// How a byte is written inside a quoted atom.
pub open spec fn sexp_escape_byte(c: u8) -> Seq<u8> {
    if c == 34 {
        seq![92u8, 34]
    } else if c == 92 {
        seq![92u8, 92]
    } else if c == 10 {
        seq![92u8, 110]
    } else if c == 9 {
        seq![92u8, 116]
    } else if c == 13 {
        seq![92u8, 114]
    } else if c == 8 {
        seq![92u8, 98]
    } else if 32 <= c <= 126 {
        seq![c]
    } else {
        seq![92u8, (48 + c / 100) as u8, (48 + (c / 10) % 10) as u8, (48 + c % 10) as u8]
    }
}

/// The escaped bytes of a quoted atom, without the quotes.
pub open spec fn sexp_escape_bytes(bs: Seq<u8>) -> Seq<u8>
    decreases bs.len(),
{
    if bs.len() == 0 {
        Seq::empty()
    } else {
        sexp_escape_bytes(bs.drop_last()) + sexp_escape_byte(bs.last())
    }
}

/// How an atom is written: bare, or quoted and escaped.
pub open spec fn spec_sexp_atom(bs: Seq<u8>) -> Seq<u8> {
    if spec_needs_escaping(bs) {
        seq![34u8] + sexp_escape_bytes(bs) + seq![34u8]
    } else {
        bs
    }
}

/// The characters of text `bs`.
pub open spec fn chars_of(bs: Seq<u8>) -> Seq<char> {
    decode_utf8(bs)
}

impl FlatJson {
    /// The characters between the quotes of the string literal at `r`.
    pub open spec fn quoted_chars(self, r: Range<usize>) -> Seq<char> {
        chars_of(self.text().subrange(r.start + 1, r.end - 1))
    }

    /// Every string value and key holds only valid escapes.
    pub open spec fn strings_valid(self) -> bool {
        forall|i: int|
            0 <= i < self.len() ==> {
                &&& (#[trigger] self.0@[i]).value is String ==> escapes_valid(
                    self.quoted_chars(self.0@[i].range),
                )
                &&& (self.0@[i].key_range matches Some(k) ==> escapes_valid(self.quoted_chars(k)))
            }
    }

    /// The atom for the string literal at `r`, or where unescaping it failed.
    pub open spec fn spec_atom(self, r: Range<usize>) -> Result<Seq<u8>, (Seq<char>, UnescapeFailure)> {
        let cs = self.quoted_chars(r);
        match unescape_from(cs, 0, false) {
            Ok(t) => Ok(spec_sexp_atom(utf8(t))),
            Err(f) => Err((cs, f)),
        }
    }

    /// The space that separates row `i` from its previous sibling.
    pub open spec fn spec_sexp_space(self, i: int) -> Seq<u8> {
        let row = self.0@[i];
        if row.parent is Index && row.prev_sibling is Index {
            seq![32u8]
        } else {
            Seq::empty()
        }
    }

    /// The start of the (key value) pair of row `i`, if it has a key.
    pub open spec fn spec_sexp_key(self, i: int) -> Result<Seq<u8>, (Seq<char>, UnescapeFailure)> {
        match self.0@[i].key_range {
            Some(k) => match self.spec_atom(k) {
                Ok(a) => Ok(seq![40u8] + a + seq![32u8]),
                Err(e) => Err(e),
            },
            None => Ok(Seq::empty()),
        }
    }

    /// The value of row `i`: an atom, or one end of a list.
    pub open spec fn spec_sexp_value(self, i: int) -> Result<Seq<u8>, (Seq<char>, UnescapeFailure)> {
        let row = self.0@[i];
        match row.value {
            Value::Boolean | Value::Number => Ok(
                self.text().subrange(row.range.start as int, row.range.end as int),
            ),
            Value::String => self.spec_atom(row.range),
            Value::OpenContainer { .. } => Ok(seq![40u8]),
            Value::CloseContainer { .. } => Ok(seq![41u8]),
            _ => Ok(seq![40u8, 41]),
        }
    }

    /// What ends row `i`: the end of its (key value) pair, and a newline after
    /// a top-level value.
    pub open spec fn spec_sexp_end(self, i: int) -> Seq<u8> {
        let row = self.0@[i];
        let close_pair: Seq<u8> = if !row.value.spec_container() && row.key_range is Some {
            seq![41u8]
        } else if row.value is CloseContainer && self.0@[row.value.spec_pair()->Index_0 as int].key_range is Some {
            seq![41u8]
        } else {
            Seq::empty()
        };
        let newline: Seq<u8> = if row.value is CloseContainer && row.parent is Nil {
            seq![10u8]
        } else {
            Seq::empty()
        };
        close_pair + newline
    }

    /// What row `i` adds to the sexp form of the document.
    pub open spec fn spec_sexp_row(self, i: int) -> Result<Seq<u8>, (Seq<char>, UnescapeFailure)> {
        match self.spec_sexp_key(i) {
            Err(e) => Err(e),
            Ok(k) => match self.spec_sexp_value(i) {
                Err(e) => Err(e),
                Ok(v) => Ok(self.spec_sexp_space(i) + k + v + self.spec_sexp_end(i)),
            },
        }
    }

    /// The sexp form of rows `0..n`, or the first failure to unescape.
    pub open spec fn spec_sexp_rows(self, n: int) -> Result<Seq<u8>, (Seq<char>, UnescapeFailure)>
        decreases n,
    {
        if n <= 0 {
            Ok(Seq::empty())
        } else {
            match self.spec_sexp_rows(n - 1) {
                Err(e) => Err(e),
                Ok(prefix) => match self.spec_sexp_row(n - 1) {
                    Err(e) => Err(e),
                    Ok(p) => Ok(prefix + p),
                },
            }
        }
    }

    fn sexp_atom_needs_escaping(s: &str) -> (b: bool)
        ensures
            b == spec_needs_escaping(utf8(s@)),
    {
        let bytes = s.as_bytes();
        if bytes.len() == 0 {
            return true;
        }
        let last_ch_index = bytes.len() - 1;
        let mut i: usize = 0;
        while i < bytes.len()
            invariant
                i <= bytes@.len(),
                bytes@ == utf8(s@),
                last_ch_index == bytes@.len() - 1,
                forall|k: int| 0 <= k < i ==> !#[trigger] sexp_special(bytes@, k),
            decreases bytes@.len() - i,
        {
            let ch = bytes[i];
            if ch == 32 || ch == 34 || ch == 40 || ch == 41 || ch == 59 || ch == 92 {
                assert(sexp_special(bytes@, i as int));
                return true;
            }
            if ch == 124 && i < last_ch_index && bytes[i + 1] == 35 {
                assert(sexp_special(bytes@, i as int));
                return true;
            }
            if ch == 35 && i < last_ch_index && bytes[i + 1] == 124 {
                assert(sexp_special(bytes@, i as int));
                return true;
            }
            if ch <= 31 || ch >= 127 {
                assert(sexp_special(bytes@, i as int));
                return true;
            }
            i = i + 1;
        }
        false
    }

    #[verifier::spinoff_prover]
    fn escape_and_write_sexp_atom(buf: &mut String, atom: &[u8])
        ensures
            utf8(final(buf)@) == utf8(old(buf)@) + seq![34u8] + sexp_escape_bytes(atom@) + seq![34u8],
    {
        push_ascii(buf, 34);
        let mut i: usize = 0;
        while i < atom.len()
            invariant
                i <= atom@.len(),
                utf8(buf@) == utf8(old(buf)@) + seq![34u8] + sexp_escape_bytes(atom@.subrange(0, i as int)),
            decreases atom@.len() - i,
        {
            let ch = atom[i];
            let ghost before = utf8(buf@);
            if ch == 34 {
                push_ascii(buf, 92);
                push_ascii(buf, 34);
            } else if ch == 92 {
                push_ascii(buf, 92);
                push_ascii(buf, 92);
            } else if ch == 10 {
                push_ascii(buf, 92);
                push_ascii(buf, 110);
            } else if ch == 9 {
                push_ascii(buf, 92);
                push_ascii(buf, 116);
            } else if ch == 13 {
                push_ascii(buf, 92);
                push_ascii(buf, 114);
            } else if ch == 8 {
                push_ascii(buf, 92);
                push_ascii(buf, 98);
            } else if 32 <= ch && ch <= 126 {
                push_ascii(buf, ch);
            } else {
                push_ascii(buf, 92);
                push_ascii(buf, 48 + ch / 100);
                push_ascii(buf, 48 + (ch / 10) % 10);
                push_ascii(buf, 48 + ch % 10);
            }
            proof {
                let sub = atom@.subrange(0, i + 1);
                assert(sub.drop_last() =~= atom@.subrange(0, i as int));
                assert(sub.last() == ch);
                assert(utf8(buf@) =~= before + sexp_escape_byte(ch));
            }
            i = i + 1;
        }
        assert(atom@.subrange(0, i as int) =~= atom@);
        push_ascii(buf, 34);
    }

    fn write_sexp_atom(&self, buf: &mut String, range: Range<usize>) -> (r: Result<(), UnescapeError>)
        requires
            delimited_range_in(self.text(), range),
            escapes_valid(self.quoted_chars(range)),
            self.text().len() < usize::MAX - 16,
        ensures
            match self.spec_atom(range) {
                Ok(a) => r is Ok && utf8(final(buf)@) == utf8(old(buf)@) + a,
                Err((cs, f)) => r matches Err(e) && e.describes(cs, f),
            },
    {
        let inner = substring(self.1.as_str(), range.start + 1, range.end - 1);
        proof {
            let bs = self.text().subrange(range.start + 1, range.end - 1);
            assert(utf8(inner@) == bs);
            encode_utf8_decode_utf8(inner@);
            assert(inner@ == self.quoted_chars(range));
            lemma_utf8_len(inner@);
        }
        match unsafe_unescape_json_string(inner) {
            Ok(unescaped) => {
                let s = unescaped.as_str();
                if Self::sexp_atom_needs_escaping(s) {
                    Self::escape_and_write_sexp_atom(buf, s.as_bytes());
                    proof {
                        assert(utf8(buf@) =~= utf8(old(buf)@) + spec_sexp_atom(utf8(s@)));
                    }
                } else {
                    push_str(buf, s);
                }
                Ok(())
            },
            Err(err) => Err(err),
        }
    }

    /// The document as S-expressions: objects and arrays as lists, object
    /// members as (key value) pairs, one top-level value per line.
    pub fn sexp_string(&self) -> (r: Result<String, UnescapeError>)
        requires
            self.wf(),
            self.strings_valid(),
            self.text().len() < usize::MAX - 16,
        ensures
            match self.spec_sexp_rows(self.len()) {
                Ok(t) => r matches Ok(s) && utf8(s@) == t,
                Err((cs, f)) => r matches Err(e) && e.describes(cs, f),
            },
    {
        let mut buf = String::new();
        proof {
            assert(utf8(buf@) =~= Seq::<u8>::empty());
        }
        let mut i: usize = 0;
        while i < self.0.len()
            invariant
                self.wf(),
                self.strings_valid(),
                self.text().len() < usize::MAX - 16,
                i <= self.len(),
                self.spec_sexp_rows(i as int) == Ok::<Seq<u8>, (Seq<char>, UnescapeFailure)>(utf8(buf@)),
            decreases self.len() - i,
        {
            match self.write_sexp_row(&mut buf, i) {
                Ok(()) => {},
                Err(e) => {
                    proof {
                        self.lemma_sexp_rows_err(i + 1, self.len());
                    }
                    return Err(e);
                },
            }
            i = i + 1;
        }
        Ok(buf)
    }

    /// Appends what row `i` adds to the sexp form of the document.
    fn write_sexp_row(&self, buf: &mut String, i: Index) -> (r: Result<(), UnescapeError>)
        requires
            self.wf(),
            self.strings_valid(),
            self.text().len() < usize::MAX - 16,
            i < self.len(),
        ensures
            match self.spec_sexp_row(i as int) {
                Ok(t) => r is Ok && utf8(final(buf)@) == utf8(old(buf)@) + t,
                Err((cs, f)) => r matches Err(e) && e.describes(cs, f),
            },
    {
        let row = &self.0[i];
        // A space between elements.
        if row.parent.is_some() && row.prev_sibling.is_some() {
            push_ascii(buf, 32);
        }
        let ghost after_space = utf8(buf@);
        match self.write_sexp_key(buf, i) {
            Ok(()) => {},
            Err(e) => {
                return Err(e);
            },
        }
        let ghost after_key = utf8(buf@);
        match self.write_sexp_value(buf, i) {
            Ok(()) => {},
            Err(e) => {
                return Err(e);
            },
        }
        let ghost after_value = utf8(buf@);
        self.write_sexp_end(buf, i);
        proof {
            let k = self.spec_sexp_key(i as int)->Ok_0;
            let v = self.spec_sexp_value(i as int)->Ok_0;
            assert(after_space =~= utf8(old(buf)@) + self.spec_sexp_space(i as int));
            assert(utf8(buf@) =~= utf8(old(buf)@) + (self.spec_sexp_space(i as int) + k + v
                + self.spec_sexp_end(i as int)));
        }
        Ok(())
    }

    /// Appends the start of the (key value) pair of row `i`.
    fn write_sexp_key(&self, buf: &mut String, i: Index) -> (r: Result<(), UnescapeError>)
        requires
            self.wf(),
            self.strings_valid(),
            self.text().len() < usize::MAX - 16,
            i < self.len(),
        ensures
            match self.spec_sexp_key(i as int) {
                Ok(t) => r is Ok && utf8(final(buf)@) == utf8(old(buf)@) + t,
                Err((cs, f)) => r matches Err(e) && e.describes(cs, f),
            },
    {
        proof {
            assert(self.row_wf(i as int));
        }
        if let Some(key_range) = &self.0[i].key_range {
            push_ascii(buf, 40);
            let k = key_range.start..key_range.end;
            match self.write_sexp_atom(buf, k) {
                Ok(()) => {},
                Err(e) => {
                    return Err(e);
                },
            }
            push_ascii(buf, 32);
            proof {
                let a = self.spec_atom(k)->Ok_0;
                assert(utf8(buf@) =~= utf8(old(buf)@) + (seq![40u8] + a + seq![32u8]));
            }
        } else {
            assert(utf8(buf@) =~= utf8(old(buf)@) + Seq::<u8>::empty());
        }
        Ok(())
    }

    /// Appends the value of row `i`.
    fn write_sexp_value(&self, buf: &mut String, i: Index) -> (r: Result<(), UnescapeError>)
        requires
            self.wf(),
            self.strings_valid(),
            self.text().len() < usize::MAX - 16,
            i < self.len(),
        ensures
            match self.spec_sexp_value(i as int) {
                Ok(t) => r is Ok && utf8(final(buf)@) == utf8(old(buf)@) + t,
                Err((cs, f)) => r matches Err(e) && e.describes(cs, f),
            },
    {
        proof {
            assert(self.row_wf(i as int));
        }
        let row = &self.0[i];
        match &row.value {
            Value::Null | Value::EmptyObject | Value::EmptyArray => {
                push_ascii(buf, 40);
                push_ascii(buf, 41);
                assert(utf8(buf@) =~= utf8(old(buf)@) + seq![40u8, 41]);
            },
            Value::Boolean | Value::Number => {
                let piece = substring(self.1.as_str(), row.range.start, row.range.end);
                push_str(buf, piece);
            },
            Value::String => {
                let rr = row.range.start..row.range.end;
                return self.write_sexp_atom(buf, rr);
            },
            Value::OpenContainer { .. } => {
                push_ascii(buf, 40);
                assert(utf8(buf@) =~= utf8(old(buf)@) + seq![40u8]);
            },
            Value::CloseContainer { .. } => {
                push_ascii(buf, 41);
                assert(utf8(buf@) =~= utf8(old(buf)@) + seq![41u8]);
            },
        }
        Ok(())
    }

    /// Appends what ends row `i`.
    fn write_sexp_end(&self, buf: &mut String, i: Index)
        requires
            self.wf(),
            i < self.len(),
        ensures
            utf8(final(buf)@) == utf8(old(buf)@) + self.spec_sexp_end(i as int),
    {
        proof {
            assert(self.row_wf(i as int));
        }
        let row = &self.0[i];
        if row.is_primitive() && row.key_range.is_some() {
            push_ascii(buf, 41);
        } else if row.is_closing_of_container() {
            let open = row.pair_index().unwrap();
            if self.0[open].key_range.is_some() {
                push_ascii(buf, 41);
            }
        }
        let ghost after_pair = utf8(buf@);
        if row.is_closing_of_container() && row.parent.is_nil() {
            push_ascii(buf, 10);
        }
        proof {
            let row = self.0@[i as int];
            let close_pair: Seq<u8> = if !row.value.spec_container() && row.key_range is Some {
                seq![41u8]
            } else if row.value is CloseContainer && self.0@[row.value.spec_pair()->Index_0 as int].key_range is Some {
                seq![41u8]
            } else {
                Seq::empty()
            };
            assert(after_pair =~= utf8(old(buf)@) + close_pair);
            assert(utf8(buf@) =~= utf8(old(buf)@) + self.spec_sexp_end(i as int));
        }
    }

    /// Once unescaping fails on a row, the sexp form of every longer prefix
    /// of the rows fails the same way.
    proof fn lemma_sexp_rows_err(self, k: int, n: int)
        requires
            0 <= k <= n,
            self.spec_sexp_rows(k) is Err,
        ensures
            self.spec_sexp_rows(n) == self.spec_sexp_rows(k),
        decreases n - k,
    {
        if n > k {
            self.lemma_sexp_rows_err(k, n - 1);
        }
    }
}

} // verus!
