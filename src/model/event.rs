use std::cmp::Ordering;

use vstd::prelude::*;

use crate::model::dag::{DataSetNode, NodeColor};
use crate::model::text::{decimal_text, int_text, trim_end, trim_ws_end};

verus! {

/// A field of an event that may appear in the label of its node.
#[derive(Clone, Copy, Debug, PartialEq, Eq, Hash, Structural)]
pub enum Field {
    Sender,
    Origin,
    OriginServerTS,
    Type,
    StateKey,
    PrevEvents,
    Depth,
    Redacts,
    EventID,
}

/// One entry of the `prev_events` list as found on the wire.
pub enum RawRef {
    /// A bare event id.
    Id(String),
    /// A list, as in the `[id, metadata]` form; holds its first element when
    /// that element is a string.
    List(Option<String>),
    /// Any other value.
    Other,
}

/// The event id that a wire entry of `prev_events` stands for, if its shape is valid.
pub open spec fn ref_id(r: RawRef) -> Option<Seq<char>> {
    match r {
        RawRef::Id(s) => Some(s@),
        RawRef::List(Some(s)) => Some(s@),
        _ => None,
    }
}

/// All entries of a wire `prev_events` list are well formed.
pub open spec fn refs_valid(raw: Seq<RawRef>) -> bool {
    forall|i: int| 0 <= i < raw.len() ==> (#[trigger] ref_id(raw[i])).is_some()
}

/// The ids that a well formed wire `prev_events` list stands for, in order.
pub open spec fn refs_ids(raw: Seq<RawRef>) -> Seq<Seq<char>> {
    raw.map_values(|r: RawRef| ref_id(r).unwrap())
}

/// The views of a list of strings.
pub open spec fn views(v: Seq<String>) -> Seq<Seq<char>> {
    v.map_values(|s: String| s@)
}

/// Views of a list grow by one when the list does.
pub proof fn lemma_views_push(v: Seq<String>, s: String)
    ensures
        views(v.push(s)) == views(v).push(s@),
{
    assert(views(v.push(s)) =~= views(v).push(s@));
}

/// Reduces each entry of a wire `prev_events` list to a bare event id. Fails
/// when one of them has neither accepted shape.
pub fn normalize_parent_refs(raw: &Vec<RawRef>) -> (r: Option<Vec<String>>)
    ensures
        r.is_some() == refs_valid(raw@),
        r matches Some(v) ==> views(v@) == refs_ids(raw@),
{
    let mut out: Vec<String> = Vec::new();
    let mut i: usize = 0;
    while i < raw.len()
        invariant
            i <= raw@.len(),
            out@.len() == i,
            refs_valid(raw@.take(i as int)),
            views(out@) == refs_ids(raw@.take(i as int)),
        decreases raw@.len() - i,
    {
        let id = match &raw[i] {
            RawRef::Id(s) => s.clone(),
            RawRef::List(Some(s)) => s.clone(),
            _ => {
                assert(ref_id(raw@[i as int]).is_none());
                return None;
            }
        };
        assert(ref_id(raw@[i as int]) == Some(id@));
        let ghost before = out@;
        out.push(id);
        proof {
            assert(raw@.take(i as int + 1) == raw@.take(i as int).push(raw@[i as int]));
            assert(out@ == before.push(id));
            let t = raw@.take(i as int + 1);
            assert forall|k: int| 0 <= k < t.len() implies views(out@)[k] == refs_ids(t)[k] by {
                assert(t[k] == raw@[k]);
                assert(refs_ids(t)[k] == ref_id(t[k]).unwrap());
                if k < i {
                    assert(views(before)[k] == refs_ids(raw@.take(i as int))[k]);
                    assert(views(out@)[k] == views(before)[k]);
                } else {
                    assert(views(out@)[k] == out@[k]@);
                }
            }
            assert(views(out@) =~= refs_ids(t));
        }
        i = i + 1;
    }
    assert(raw@.take(i as int) == raw@);
    Some(out)
}


/// A JSON value that the engine carries through without reading it.
#[verifier::external_type_specification]
#[verifier::external_body]
pub struct ExJsonValue(serde_json::Value);

/// One event as received, reduced to the shapes that the engine reads. A field
/// is `None` when it is missing or when its value has another type.
pub struct RawEvent {
    pub room_id: Option<String>,
    pub sender: Option<String>,
    pub origin: Option<String>,
    pub origin_server_ts: Option<i64>,
    pub etype: Option<String>,
    pub state_key: Option<String>,
    pub content: Option<serde_json::Value>,
    pub prev_events: Option<Vec<RawRef>>,
    pub depth: Option<i64>,
    pub auth_events: Option<Vec<serde_json::Value>>,
    pub redacts: Option<String>,
    pub unsigned: Option<serde_json::Value>,
    pub event_id: Option<String>,
    pub hashes: Option<serde_json::Value>,
    pub signatures: Option<serde_json::Value>,
}

/// The fields without which an event cannot enter the graph.
#[derive(Clone, Copy, Debug, PartialEq, Eq, Structural)]
pub enum RequiredField {
    EventId,
    Depth,
    PrevEvents,
}

/// One event of the room, as the graph holds it.
pub struct Event {
    pub room_id: String,
    pub sender: String,
    pub origin: String,
    pub origin_server_ts: i64,
    pub etype: String,
    pub state_key: Option<String>,
    pub content: Option<serde_json::Value>,
    /// The ids of the events that this one cites as its parents.
    pub prev_events: Vec<String>,
    pub depth: i64,
    pub auth_events: Vec<serde_json::Value>,
    pub redacts: Option<String>,
    pub unsigned: Option<serde_json::Value>,
    pub event_id: String,
    pub hashes: Option<serde_json::Value>,
    pub signatures: Option<serde_json::Value>,
}

/// What the graph needs to know of an event besides its id.
pub struct NodeModel {
    pub depth: i64,
    pub prevs: Seq<Seq<char>>,
}

/// The text of an optional string field; empty when it is missing.
pub open spec fn text_or_empty(o: Option<String>) -> Seq<char> {
    match o {
        Some(s) => s@,
        None => Seq::empty(),
    }
}

/// The first required field that a raw event lacks, in the order id, depth,
/// parents.
pub open spec fn missing_field(raw: RawEvent) -> Option<RequiredField> {
    if raw.event_id.is_none() {
        Some(RequiredField::EventId)
    } else if raw.depth.is_none() {
        Some(RequiredField::Depth)
    } else if raw.prev_events.is_none() || !refs_valid(raw.prev_events.unwrap()@) {
        Some(RequiredField::PrevEvents)
    } else {
        None
    }
}

/// The id and graph data of a raw event that has all its required fields.
pub open spec fn raw_entry(raw: RawEvent) -> Option<(Seq<char>, NodeModel)> {
    if missing_field(raw).is_some() {
        None
    } else {
        Some(
            (
                raw.event_id.unwrap()@,
                NodeModel { depth: raw.depth.unwrap(), prevs: refs_ids(raw.prev_events.unwrap()@) },
            ),
        )
    }
}

/// `e` is the event that `raw` parses to: its id, depth and parents are the
/// raw ones, and every other field is the raw one or empty when missing.
pub open spec fn parses_to(raw: RawEvent, e: Event) -> bool {
    &&& missing_field(raw) is None
    &&& raw_entry(raw) == Some((e.event_id@, e.node()))
    &&& e.room_id@ == text_or_empty(raw.room_id)
    &&& e.sender@ == text_or_empty(raw.sender)
    &&& e.origin@ == text_or_empty(raw.origin)
    &&& e.etype@ == text_or_empty(raw.etype)
    &&& e.origin_server_ts == (match raw.origin_server_ts {
        Some(t) => t,
        None => 0,
    })
    &&& e.state_key == raw.state_key
    &&& e.redacts == raw.redacts
    &&& e.content == raw.content
    &&& e.unsigned == raw.unsigned
    &&& e.hashes == raw.hashes
    &&& e.signatures == raw.signatures
    &&& e.auth_events@ == (match raw.auth_events {
        Some(v) => v@,
        None => Seq::empty(),
    })
}

/// Two events carry the same values in every field.
pub open spec fn same_fields(a: Event, b: Event) -> bool {
    &&& a.room_id@ == b.room_id@
    &&& a.sender@ == b.sender@
    &&& a.origin@ == b.origin@
    &&& a.origin_server_ts == b.origin_server_ts
    &&& a.etype@ == b.etype@
    &&& a.state_key == b.state_key
    &&& a.content == b.content
    &&& views(a.prev_events@) == views(b.prev_events@)
    &&& a.depth == b.depth
    &&& a.auth_events@ == b.auth_events@
    &&& a.redacts == b.redacts
    &&& a.unsigned == b.unsigned
    &&& a.event_id@ == b.event_id@
    &&& a.hashes == b.hashes
    &&& a.signatures == b.signatures
}

/// What a raw event parses to is fixed by the raw event, field by field.
pub proof fn lemma_parse_unique(raw: RawEvent, a: Event, b: Event)
    requires
        parses_to(raw, a),
        parses_to(raw, b),
    ensures
        same_fields(a, b),
{
}

impl Event {
    /// The graph data of this event.
    pub open spec fn node(&self) -> NodeModel {
        NodeModel { depth: self.depth, prevs: views(self.prev_events@) }
    }

    /// Builds an event from its raw form. Fails on the first required field
    /// that is missing or malformed; any other missing field is left empty.
    pub fn parse(raw: RawEvent) -> (r: Result<Event, RequiredField>)
        ensures
            r is Err <==> missing_field(raw).is_some(),
            r matches Err(f) ==> missing_field(raw) == Some(f),
            r matches Ok(e) ==> parses_to(raw, e),
    {
        let ghost orig = raw;
        let RawEvent {
            room_id,
            sender,
            origin,
            origin_server_ts,
            etype,
            state_key,
            content,
            prev_events,
            depth,
            auth_events,
            redacts,
            unsigned,
            event_id,
            hashes,
            signatures,
        } = raw;
        let event_id = match event_id {
            Some(id) => id,
            None => return Err(RequiredField::EventId),
        };
        let depth = match depth {
            Some(d) => d,
            None => return Err(RequiredField::Depth),
        };
        let prev_events = match prev_events {
            Some(refs) => match normalize_parent_refs(&refs) {
                Some(ids) => ids,
                None => return Err(RequiredField::PrevEvents),
            },
            None => return Err(RequiredField::PrevEvents),
        };
        Ok(
            Event {
                room_id: string_or_empty(room_id),
                sender: string_or_empty(sender),
                origin: string_or_empty(origin),
                origin_server_ts: match origin_server_ts {
                    Some(t) => t,
                    None => 0,
                },
                etype: string_or_empty(etype),
                state_key,
                content,
                prev_events,
                depth,
                auth_events: match auth_events {
                    Some(v) => v,
                    None => Vec::new(),
                },
                redacts,
                unsigned,
                event_id,
                hashes,
                signatures,
            },
        )
    }

    /// The ids of the events that this one cites as its parents.
    pub fn get_prev_events(&self) -> (r: &Vec<String>)
        ensures
            views(r@) == self.node().prevs,
    {
        &self.prev_events
    }

    /// Identity of events: two events are the same event when their ids are equal.
    pub fn identity_eq(&self, other: &Event) -> (r: bool)
        ensures
            r == (self.event_id@ == other.event_id@),
    {
        self.event_id == other.event_id
    }

    /// Orders events by depth, then by origin timestamp. Events with different
    /// ids may compare equal: this order never decides identity.
    pub fn causal_order(&self, other: &Event) -> (r: Ordering)
        ensures
            r == causal_cmp(self.depth, self.origin_server_ts, other.depth, other.origin_server_ts),
    {
        if self.depth < other.depth {
            Ordering::Less
        } else if self.depth > other.depth {
            Ordering::Greater
        } else if self.origin_server_ts < other.origin_server_ts {
            Ordering::Less
        } else if self.origin_server_ts > other.origin_server_ts {
            Ordering::Greater
        } else {
            Ordering::Equal
        }
    }
}

/// Two events are equal when their ids are: the same event, whatever else the
/// copies carry.
impl PartialEq for Event {
    fn eq(&self, other: &Event) -> (r: bool) {
        self.event_id == other.event_id
    }
}

impl vstd::std_specs::cmp::PartialEqSpecImpl for Event {
    open spec fn obeys_eq_spec() -> bool {
        true
    }

    open spec fn eq_spec(&self, other: &Event) -> bool {
        self.event_id@ == other.event_id@
    }
}

impl Eq for Event {}

/// The order of two events given by their depths and origin timestamps.
pub open spec fn causal_cmp(d1: i64, t1: i64, d2: i64, t2: i64) -> Ordering {
    if d1 < d2 || (d1 == d2 && t1 < t2) {
        Ordering::Less
    } else if d1 == d2 && t1 == t2 {
        Ordering::Equal
    } else {
        Ordering::Greater
    }
}

fn string_or_empty(o: Option<String>) -> (r: String)
    ensures
        r@ == text_or_empty(o),
{
    match o {
        Some(s) => s,
        None => String::new(),
    }
}

/// One line of a label: `name: value` and a line break.
pub open spec fn line(name: Seq<char>, value: Seq<char>) -> Seq<char> {
    name + ": "@ + value + "\n"@
}

/// The line for a field when it is selected, else nothing.
pub open spec fn line_if(fields: Seq<Field>, f: Field, text: Seq<char>) -> Seq<char> {
    if fields.contains(f) {
        text
    } else {
        Seq::empty()
    }
}

/// The line for an optional field when it is selected and present, else nothing.
pub open spec fn opt_line_if(fields: Seq<Field>, f: Field, name: Seq<char>, o: Option<String>) -> Seq<
    char,
> {
    match o {
        Some(v) => line_if(fields, f, line(name, v@)),
        None => Seq::empty(),
    }
}

/// The ids of the parents, each after a space.
pub open spec fn spaced(ids: Seq<Seq<char>>) -> Seq<char>
    decreases ids.len(),
{
    if ids.len() == 0 {
        Seq::empty()
    } else {
        spaced(ids.drop_last()) + " "@ + ids.last()
    }
}

/// The label of an event before trailing white space is trimmed: the
/// selected fields in a fixed order, one line each.
pub open spec fn raw_label(e: Event, fields: Seq<Field>) -> Seq<char> {
    line_if(fields, Field::Sender, line("Sender"@, e.sender@))
        + line_if(fields, Field::Origin, line("Origin"@, e.origin@))
        + line_if(fields, Field::OriginServerTS, line("Origin server time stamp"@, int_text(e.origin_server_ts as int)))
        + line_if(fields, Field::Type, line("Type"@, e.etype@))
        + opt_line_if(fields, Field::StateKey, "State key"@, e.state_key)
        + line_if(fields, Field::PrevEvents, "Previous events:"@ + spaced(e.node().prevs) + "\n"@)
        + line_if(fields, Field::Depth, line("Depth"@, int_text(e.depth as int)))
        + opt_line_if(fields, Field::Redacts, "Redacts"@, e.redacts)
        + line_if(fields, Field::EventID, line("Event ID"@, e.event_id@))
}

/// The label of an event's node.
pub open spec fn label_text(e: Event, fields: Seq<Field>) -> Seq<char> {
    trim_ws_end(raw_label(e, fields))
}

/// The border colour of a node, by whether its event is local.
pub open spec fn border_of(local: bool) -> Seq<char> {
    if local {
        "#006633"@
    } else {
        "#990000"@
    }
}

/// The background colour of a node, by whether its event is local.
pub open spec fn background_of(local: bool) -> Seq<char> {
    if local {
        "#009900"@
    } else {
        "#ff6600"@
    }
}

/// Whether `f` is among `fields`.
fn selected(fields: &Vec<Field>, f: Field) -> (r: bool)
    ensures
        r == fields@.contains(f),
{
    let mut i: usize = 0;
    while i < fields.len()
        invariant
            i <= fields@.len(),
            forall|j: int| 0 <= j < i ==> fields@[j] != f,
        decreases fields@.len() - i,
    {
        if fields[i] == f {
            return true;
        }
        i = i + 1;
    }
    false
}

/// The texts of a list of parts, one after the other.
pub open spec fn concat_parts(parts: Seq<String>) -> Seq<char>
    decreases parts.len(),
{
    if parts.len() == 0 {
        Seq::empty()
    } else {
        concat_parts(parts.drop_last()) + parts.last()@
    }
}

/// `name: value` and a line break, when `f` is selected.
fn field_line(fields: &Vec<Field>, f: Field, name: &str, value: &str) -> (r: String)
    ensures
        r@ == line_if(fields@, f, line(name@, value@)),
{
    let mut text = String::new();
    if selected(fields, f) {
        text.append(name);
        text.append(": ");
        text.append(value);
        text.append("\n");
        assert(text@ =~= line(name@, value@));
    }
    text
}

/// `name: value` and a line break, when `f` is selected and the value present.
fn opt_field_line(fields: &Vec<Field>, f: Field, name: &str, value: &Option<String>) -> (r: String)
    ensures
        r@ == opt_line_if(fields@, f, name@, *value),
{
    match value {
        Some(v) => field_line(fields, f, name, v.as_str()),
        None => String::new(),
    }
}

impl Event {
    /// The node that stands for this event in a rendering, seen from the
    /// authority `server_name`.
    pub fn to_data_set_node(&self, server_name: &String, fields: &Vec<Field>) -> (r: DataSetNode)
        ensures
            r.id@ == self.event_id@,
            r.label@ == label_text(*self, fields@),
            r.level == self.depth,
            r.color.border@ == border_of(self.origin@ == server_name@),
            r.color.background@ == background_of(self.origin@ == server_name@),
    {
        let (border, background) = if self.origin == *server_name {
            ("#006633".to_owned(), "#009900".to_owned())
        } else {
            ("#990000".to_owned(), "#ff6600".to_owned())
        };
        DataSetNode {
            id: self.event_id.clone(),
            label: self.label(fields),
            level: self.depth,
            color: NodeColor { border, background },
        }
    }

    /// The selected fields of the event, one line each, in a fixed order.
    pub fn label(&self, fields: &Vec<Field>) -> (r: String)
        ensures
            r@ == label_text(*self, fields@),
    {
        let ghost f = fields@;
        let ts = decimal_text(self.origin_server_ts);
        let depth = decimal_text(self.depth);
        let parts = [
            field_line(fields, Field::Sender, "Sender", self.sender.as_str()),
            field_line(fields, Field::Origin, "Origin", self.origin.as_str()),
            field_line(fields, Field::OriginServerTS, "Origin server time stamp", ts.as_str()),
            field_line(fields, Field::Type, "Type", self.etype.as_str()),
            opt_field_line(fields, Field::StateKey, "State key", &self.state_key),
            self.prev_events_line(fields),
            field_line(fields, Field::Depth, "Depth", depth.as_str()),
            opt_field_line(fields, Field::Redacts, "Redacts", &self.redacts),
            field_line(fields, Field::EventID, "Event ID", self.event_id.as_str()),
        ];
        let mut label = String::new();
        let mut i: usize = 0;
        while i < 9
            invariant
                i <= 9,
                label@ == concat_parts(parts@.take(i as int)),
            decreases 9 - i,
        {
            label.append(parts[i].as_str());
            assert(parts@.take(i as int + 1).drop_last() =~= parts@.take(i as int));
            i = i + 1;
        }
        proof {
            assert(parts@.take(9) =~= parts@);
            reveal_with_fuel(concat_parts, 10);
            assert(label@ == parts@[0]@ + parts@[1]@ + parts@[2]@ + parts@[3]@ + parts@[4]@ + parts@[5]@
                + parts@[6]@ + parts@[7]@ + parts@[8]@) by {
                assert(parts@.drop_last().drop_last().drop_last().drop_last().drop_last().drop_last().drop_last().drop_last().drop_last() =~= Seq::<String>::empty());
            }
            assert(label@ =~= raw_label(*self, f));
        }
        trim_end(label.as_str()).to_owned()
    }

    /// The line that lists the parents, when it is selected.
    fn prev_events_line(&self, fields: &Vec<Field>) -> (r: String)
        ensures
            r@ == line_if(fields@, Field::PrevEvents, "Previous events:"@ + spaced(self.node().prevs) + "\n"@),
    {
        let mut text = String::new();
        if selected(fields, Field::PrevEvents) {
            text.append("Previous events:");
            let mut k: usize = 0;
            let ghost start = text@;
            while k < self.prev_events.len()
                invariant
                    k <= self.prev_events@.len(),
                    text@ == start + spaced(views(self.prev_events@).take(k as int)),
                decreases self.prev_events@.len() - k,
            {
                text.append(" ");
                text.append(self.prev_events[k].as_str());
                proof {
                    let ids = views(self.prev_events@);
                    assert(ids.take(k as int + 1).drop_last() =~= ids.take(k as int));
                    assert(ids.take(k as int + 1).last() == self.prev_events@[k as int]@);
                    assert(text@ =~= start + spaced(ids.take(k as int + 1)));
                }
                k = k + 1;
            }
            assert(views(self.prev_events@).take(k as int) =~= views(self.prev_events@));
            text.append("\n");
            assert(text@ =~= "Previous events:"@ + spaced(self.node().prevs) + "\n"@);
        }
        text
    }
}

} // verus!
