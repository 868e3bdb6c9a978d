//! The schema catalog: streams, events and typed attributes, each keyed by
//! case-sensitive name types that exist to keep the three kinds of name
//! apart at API boundaries.

use vstd::prelude::*;
use crate::mutation::AddEventMutation;

verus! {

#[derive(Debug)]
pub struct StreamName(pub String);

impl Clone for StreamName {
    fn clone(&self) -> (r: Self)
        ensures
            r == *self,
    {
        StreamName(self.0.clone())
    }
}

impl View for StreamName {
    type V = Seq<char>;

    open spec fn view(&self) -> Seq<char> {
        self.0@
    }
}

impl StreamName {
    pub fn new(s: String) -> (r: Self)
        ensures
            r == (StreamName(s)),
            r@ == s@,
    {
        StreamName(s)
    }
}

impl PartialEq for StreamName {
    fn eq(&self, other: &Self) -> (r: bool) {
        self.0 == other.0
    }
}

impl vstd::std_specs::cmp::PartialEqSpecImpl for StreamName {
    open spec fn obeys_eq_spec() -> bool {
        true
    }

    open spec fn eq_spec(&self, other: &Self) -> bool {
        self.0@ == other.0@
    }
}

#[derive(Debug)]
pub struct EventName(pub String);

impl Clone for EventName {
    fn clone(&self) -> (r: Self)
        ensures
            r == *self,
    {
        EventName(self.0.clone())
    }
}

impl View for EventName {
    type V = Seq<char>;

    open spec fn view(&self) -> Seq<char> {
        self.0@
    }
}

impl EventName {
    pub fn new(s: String) -> (r: Self)
        ensures
            r == (EventName(s)),
            r@ == s@,
    {
        EventName(s)
    }
}

impl PartialEq for EventName {
    fn eq(&self, other: &Self) -> (r: bool) {
        self.0 == other.0
    }
}

impl vstd::std_specs::cmp::PartialEqSpecImpl for EventName {
    open spec fn obeys_eq_spec() -> bool {
        true
    }

    open spec fn eq_spec(&self, other: &Self) -> bool {
        self.0@ == other.0@
    }
}

#[derive(Debug)]
pub struct AttributeName(pub String);

impl Clone for AttributeName {
    fn clone(&self) -> (r: Self)
        ensures
            r == *self,
    {
        AttributeName(self.0.clone())
    }
}

impl View for AttributeName {
    type V = Seq<char>;

    open spec fn view(&self) -> Seq<char> {
        self.0@
    }
}

impl AttributeName {
    pub fn new(s: String) -> (r: Self)
        ensures
            r == (AttributeName(s)),
            r@ == s@,
    {
        AttributeName(s)
    }
}

impl PartialEq for AttributeName {
    fn eq(&self, other: &Self) -> (r: bool) {
        self.0 == other.0
    }
}

impl vstd::std_specs::cmp::PartialEqSpecImpl for AttributeName {
    open spec fn obeys_eq_spec() -> bool {
        true
    }

    open spec fn eq_spec(&self, other: &Self) -> bool {
        self.0@ == other.0@
    }
}

/// A typed attribute slot of an event, keyed by (stream, event, name).
#[derive(Debug, PartialEq)]
pub struct Attribute {
    pub name: AttributeName,
    pub event_name: EventName,
    pub stream_name: StreamName,
    pub required: bool,
    pub attribute_type: String,
}

impl Clone for Attribute {
    fn clone(&self) -> (r: Self)
        ensures
            r == *self,
    {
        Attribute {
            name: self.name.clone(),
            event_name: self.event_name.clone(),
            stream_name: self.stream_name.clone(),
            required: self.required,
            attribute_type: self.attribute_type.clone(),
        }
    }
}

/// An event kind of a stream, keyed by (stream, name).
#[derive(Debug, PartialEq)]
pub struct Event {
    pub name: EventName,
    pub stream_name: StreamName,
}

impl Clone for Event {
    fn clone(&self) -> (r: Self)
        ensures
            r == *self,
    {
        Event { name: self.name.clone(), stream_name: self.stream_name.clone() }
    }
}

/// A stream: a named category of aggregates, with the name of its key field.
#[derive(Debug, PartialEq)]
pub struct Stream {
    pub name: StreamName,
    pub key: String,
}

impl Clone for Stream {
    fn clone(&self) -> (r: Self)
        ensures
            r == *self,
    {
        Stream { name: self.name.clone(), key: self.key.clone() }
    }
}

/// What the catalog records about one attribute.
#[derive(Debug, PartialEq)]
pub struct AttributeDetails {
    pub required: bool,
    pub attribute_type: String,
}

impl Clone for AttributeDetails {
    fn clone(&self) -> (r: Self)
        ensures
            r == *self,
    {
        AttributeDetails { required: self.required, attribute_type: self.attribute_type.clone() }
    }
}

/// The schema catalog. The three collections are keyed collections with
/// unique keys, an event belongs to a declared stream and an attribute to
/// a declared event; `wf` states all of that.
#[derive(Debug, PartialEq)]
pub struct Schema {
    pub streams: Vec<Stream>,
    pub events: Vec<Event>,
    pub attributes: Vec<Attribute>,
}

impl Clone for Schema {
    fn clone(&self) -> (r: Self)
        ensures
            r.streams@ == self.streams@,
            r.events@ == self.events@,
            r.attributes@ == self.attributes@,
    {
        let streams = self.streams.clone();
        let events = self.events.clone();
        let attributes = self.attributes.clone();
        proof {
            assert(streams@ =~= self.streams@);
            assert(events@ =~= self.events@);
            assert(attributes@ =~= self.attributes@);
        }
        Schema { streams, events, attributes }
    }
}

/// The first attribute entry keyed (stream, event, name), if any.
pub open spec fn find_attr(
    attrs: Seq<Attribute>,
    s: Seq<char>,
    e: Seq<char>,
    a: Seq<char>,
) -> Option<Attribute>
    decreases attrs.len(),
{
    if attrs.len() == 0 {
        None
    } else if attrs[0].stream_name@ == s && attrs[0].event_name@ == e && attrs[0].name@ == a {
        Some(attrs[0])
    } else {
        find_attr(attrs.drop_first(), s, e, a)
    }
}

/// `find_attr` finds an entry exactly when one with that key is present.
pub proof fn lemma_find_attr_some(attrs: Seq<Attribute>, s: Seq<char>, e: Seq<char>, a: Seq<char>)
    ensures
        find_attr(attrs, s, e, a) is Some <==> exists|i: int|
            0 <= i < attrs.len() && attrs[i].stream_name@ == s && attrs[i].event_name@ == e
                && attrs[i].name@ == a,
    decreases attrs.len(),
{
    if attrs.len() > 0 {
        if attrs[0].stream_name@ == s && attrs[0].event_name@ == e && attrs[0].name@ == a {
            assert(attrs[0] == attrs[0int]);
        } else {
            lemma_find_attr_some(attrs.drop_first(), s, e, a);
            if find_attr(attrs, s, e, a) is Some {
                let i = choose|i: int|
                    0 <= i < attrs.drop_first().len() && attrs.drop_first()[i].stream_name@ == s
                        && attrs.drop_first()[i].event_name@ == e
                        && attrs.drop_first()[i].name@ == a;
                assert(attrs[i + 1] == attrs.drop_first()[i]);
            } else {
                assert forall|i: int|
                    0 <= i < attrs.len() && attrs[i].stream_name@ == s && attrs[i].event_name@ == e
                        && attrs[i].name@ == a implies false by {
                    assert(attrs.drop_first()[i - 1] == attrs[i]);
                }
            }
        }
    }
}

/// Stream membership carries over to a catalog whose stream names extend
/// these.
pub proof fn lemma_has_stream_mono(pre: Schema, post: Schema, x: Seq<char>)
    requires
        pre.has_stream(x),
        post.streams@.len() >= pre.streams@.len(),
        forall|j: int| 0 <= j < pre.streams@.len() ==> (#[trigger] post.streams@[j]).name@
            == pre.streams@[j].name@,
    ensures
        post.has_stream(x),
{
    let w = choose|j: int| 0 <= j < pre.streams@.len() && pre.streams@[j].name@ == x;
    assert(post.streams@[w].name@ == x);
}

/// Event membership carries over to a catalog whose event keys extend
/// these.
pub proof fn lemma_has_event_mono(pre: Schema, post: Schema, x: Seq<char>, y: Seq<char>)
    requires
        pre.has_event(x, y),
        post.events@.len() >= pre.events@.len(),
        forall|j: int| 0 <= j < pre.events@.len() ==> (#[trigger] post.events@[j]).stream_name@
            == pre.events@[j].stream_name@ && post.events@[j].name@ == pre.events@[j].name@,
    ensures
        post.has_event(x, y),
{
    let w = choose|j: int|
        0 <= j < pre.events@.len() && pre.events@[j].stream_name@ == x && pre.events@[j].name@
            == y;
    assert(post.events@[w].stream_name@ == x && post.events@[w].name@ == y);
}

/// Coherence carries over from a catalog to one that keeps every key in
/// place and only appends entries whose own references were already
/// present.
pub proof fn lemma_coherence_frame(pre: Schema, post: Schema)
    requires
        pre.wf(),
        post.streams@.len() >= pre.streams@.len(),
        forall|j: int| 0 <= j < pre.streams@.len() ==> (#[trigger] post.streams@[j]).name@
            == pre.streams@[j].name@,
        post.events@.len() >= pre.events@.len(),
        forall|j: int| 0 <= j < pre.events@.len() ==> (#[trigger] post.events@[j]).stream_name@
            == pre.events@[j].stream_name@ && post.events@[j].name@ == pre.events@[j].name@,
        post.attributes@.len() >= pre.attributes@.len(),
        forall|j: int|
            0 <= j < pre.attributes@.len() ==> (#[trigger] post.attributes@[j]).stream_name@
                == pre.attributes@[j].stream_name@ && post.attributes@[j].event_name@
                == pre.attributes@[j].event_name@,
        forall|j: int|
            pre.events@.len() <= j < post.events@.len() ==> pre.has_stream(
                (#[trigger] post.events@[j]).stream_name@,
            ),
        forall|j: int|
            pre.attributes@.len() <= j < post.attributes@.len() ==> pre.has_event(
                (#[trigger] post.attributes@[j]).stream_name@,
                post.attributes@[j].event_name@,
            ),
    ensures
        forall|i: int|
            0 <= i < post.events@.len() ==> post.has_stream(
                (#[trigger] post.events@[i]).stream_name@,
            ),
        forall|i: int|
            0 <= i < post.attributes@.len() ==> post.has_event(
                (#[trigger] post.attributes@[i]).stream_name@,
                post.attributes@[i].event_name@,
            ),
{
    assert forall|i: int| 0 <= i < post.events@.len() implies post.has_stream(
        (#[trigger] post.events@[i]).stream_name@,
    ) by {
        if i < pre.events@.len() {
            assert(pre.has_stream(pre.events@[i].stream_name@));
            lemma_has_stream_mono(pre, post, pre.events@[i].stream_name@);
        } else {
            lemma_has_stream_mono(pre, post, post.events@[i].stream_name@);
        }
    }
    assert forall|i: int| 0 <= i < post.attributes@.len() implies post.has_event(
        (#[trigger] post.attributes@[i]).stream_name@,
        post.attributes@[i].event_name@,
    ) by {
        if i < pre.attributes@.len() {
            assert(pre.has_event(pre.attributes@[i].stream_name@, pre.attributes@[i].event_name@));
            lemma_has_event_mono(
                pre,
                post,
                pre.attributes@[i].stream_name@,
                pre.attributes@[i].event_name@,
            );
        } else {
            lemma_has_event_mono(
                pre,
                post,
                post.attributes@[i].stream_name@,
                post.attributes@[i].event_name@,
            );
        }
    }
}

impl Schema {
    /// An empty catalog.
    pub fn new() -> (r: Schema)
        ensures
            r.streams@.len() == 0,
            r.events@.len() == 0,
            r.attributes@.len() == 0,
            r.wf(),
    {
        Schema { streams: Vec::new(), events: Vec::new(), attributes: Vec::new() }
    }

    /// Keys are unique in each of the three collections, an event entry
    /// names a stream of the catalog, and an attribute entry names an
    /// event of the catalog.
    pub open spec fn wf(&self) -> bool {
        &&& forall|i: int, j: int|
            0 <= i < j < self.streams@.len() ==> self.streams@[i].name@ != self.streams@[j].name@
        &&& forall|i: int, j: int|
            0 <= i < j < self.events@.len() ==> !(self.events@[i].stream_name@
                == self.events@[j].stream_name@ && self.events@[i].name@ == self.events@[j].name@)
        &&& forall|i: int, j: int|
            0 <= i < j < self.attributes@.len() ==> !(self.attributes@[i].stream_name@
                == self.attributes@[j].stream_name@ && self.attributes@[i].event_name@
                == self.attributes@[j].event_name@ && self.attributes@[i].name@
                == self.attributes@[j].name@)
        &&& forall|i: int|
            0 <= i < self.events@.len() ==> self.has_stream(
                (#[trigger] self.events@[i]).stream_name@,
            )
        &&& forall|i: int|
            0 <= i < self.attributes@.len() ==> self.has_event(
                (#[trigger] self.attributes@[i]).stream_name@,
                self.attributes@[i].event_name@,
            )
    }

    pub open spec fn has_stream(&self, s: Seq<char>) -> bool {
        exists|i: int| 0 <= i < self.streams@.len() && self.streams@[i].name@ == s
    }

    pub open spec fn has_event(&self, s: Seq<char>, e: Seq<char>) -> bool {
        exists|i: int|
            0 <= i < self.events@.len() && self.events@[i].stream_name@ == s && self.events@[i].name@
                == e
    }

    pub open spec fn has_attribute(&self, s: Seq<char>, e: Seq<char>, a: Seq<char>) -> bool {
        exists|i: int|
            0 <= i < self.attributes@.len() && self.attributes@[i].stream_name@ == s
                && self.attributes@[i].event_name@ == e && self.attributes@[i].name@ == a
    }

    /// The details recorded for attribute (s, e, a), if the entry exists.
    pub open spec fn spec_attribute_details(&self, s: Seq<char>, e: Seq<char>, a: Seq<char>) -> Option<
        AttributeDetails,
    > {
        match find_attr(self.attributes@, s, e, a) {
            Some(attr) => Some(
                AttributeDetails { required: attr.required, attribute_type: attr.attribute_type },
            ),
            None => None,
        }
    }

    pub fn stream_exists(&self, s: &StreamName) -> (r: bool)
        ensures
            r == self.has_stream(s@),
    {
        let mut i: usize = 0;
        while i < self.streams.len()
            invariant
                i <= self.streams@.len(),
                forall|j: int| 0 <= j < i ==> self.streams@[j].name@ != s@,
            decreases self.streams@.len() - i,
        {
            if self.streams[i].name == *s {
                return true;
            }
            i += 1;
        }
        false
    }

    pub fn event_exists(&self, s: &StreamName, e: &EventName) -> (r: bool)
        ensures
            r == self.has_event(s@, e@),
    {
        let mut i: usize = 0;
        while i < self.events.len()
            invariant
                i <= self.events@.len(),
                forall|j: int|
                    0 <= j < i ==> !(self.events@[j].stream_name@ == s@ && self.events@[j].name@
                        == e@),
            decreases self.events@.len() - i,
        {
            if self.events[i].stream_name == *s && self.events[i].name == *e {
                return true;
            }
            i += 1;
        }
        false
    }

    pub fn attribute_exists(&self, s: &StreamName, e: &EventName, a: &AttributeName) -> (r: bool)
        ensures
            r == self.has_attribute(s@, e@, a@),
    {
        match self.attribute_details(s, e, a) {
            Some(_) => {
                proof {
                    lemma_find_attr_some(self.attributes@, s@, e@, a@);
                }
                true
            },
            None => {
                proof {
                    lemma_find_attr_some(self.attributes@, s@, e@, a@);
                }
                false
            },
        }
    }

    /// Looks the attribute entry up and returns what the catalog records
    /// about it.
    pub fn attribute_details(&self, s: &StreamName, e: &EventName, a: &AttributeName) -> (r: Option<
        AttributeDetails,
    >)
        ensures
            r == self.spec_attribute_details(s@, e@, a@),
    {
        let ghost whole = self.attributes@;
        proof {
            assert(whole.subrange(0, whole.len() as int) =~= whole);
        }
        let mut i: usize = 0;
        while i < self.attributes.len()
            invariant
                i <= self.attributes@.len(),
                whole == self.attributes@,
                find_attr(whole, s@, e@, a@) == find_attr(
                    whole.subrange(i as int, whole.len() as int),
                    s@,
                    e@,
                    a@,
                ),
            decreases self.attributes@.len() - i,
        {
            let ghost rest = whole.subrange(i as int, whole.len() as int);
            let attr = &self.attributes[i];
            if attr.stream_name == *s && attr.event_name == *e && attr.name == *a {
                return Some(
                    AttributeDetails {
                        required: attr.required,
                        attribute_type: attr.attribute_type.clone(),
                    },
                );
            }
            proof {
                assert(rest.drop_first() =~= whole.subrange(i + 1, whole.len() as int));
            }
            i += 1;
        }
        proof {
            assert(whole.subrange(whole.len() as int, whole.len() as int) =~= Seq::<
                Attribute,
            >::empty());
        }
        None
    }

    /// An `add` is possible exactly when its stream, its event and every
    /// named attribute exist in the catalog; a refusal names the first
    /// missing entity, the stream checked first, then the event, then the
    /// attributes in order.
    pub fn is_mutation_possible(&self, mutation: &AddEventMutation) -> (r: Result<(), String>)
        ensures
            r is Ok <==> self.has_stream(mutation.stream@) && self.has_event(
                mutation.stream@,
                mutation.event@,
            ) && (forall|i: int|
                0 <= i < mutation.attributes@.len() ==> self.has_attribute(
                    mutation.stream@,
                    mutation.event@,
                    mutation.attributes@[i].name@,
                )),
            !self.has_stream(mutation.stream@) ==> (r matches Err(m) && m@ == "Stream '"@
                + mutation.stream@ + "' not found"@),
            self.has_stream(mutation.stream@) && !self.has_event(mutation.stream@, mutation.event@)
                ==> (r matches Err(m) && m@ == "Event '"@ + mutation.event@
                + "' not found in stream"@),
            self.has_stream(mutation.stream@) && self.has_event(mutation.stream@, mutation.event@)
                && r is Err ==> exists|i: int|
                {
                    &&& 0 <= i < mutation.attributes@.len()
                    &&& !self.has_attribute(
                        mutation.stream@,
                        mutation.event@,
                        (#[trigger] mutation.attributes@[i]).name@,
                    )
                    &&& (forall|j: int|
                        0 <= j < i ==> self.has_attribute(
                            mutation.stream@,
                            mutation.event@,
                            mutation.attributes@[j].name@,
                        ))
                    &&& (r matches Err(m) && m@ == "Attribute '"@ + mutation.attributes@[i].name@
                        + "' not found in event"@)
                },
    {
        let stream_name = StreamName::new(mutation.stream.clone());
        let event_name = EventName::new(mutation.event.clone());

        if !self.stream_exists(&stream_name) {
            return Err(error_text("Stream '", mutation.stream.as_str(), "' not found"));
        }

        if !self.event_exists(&stream_name, &event_name) {
            return Err(error_text("Event '", mutation.event.as_str(), "' not found in stream"));
        }

        let mut i: usize = 0;
        while i < mutation.attributes.len()
            invariant
                i <= mutation.attributes@.len(),
                stream_name@ == mutation.stream@,
                event_name@ == mutation.event@,
                self.has_stream(mutation.stream@),
                self.has_event(mutation.stream@, mutation.event@),
                forall|j: int|
                    0 <= j < i ==> self.has_attribute(
                        mutation.stream@,
                        mutation.event@,
                        mutation.attributes@[j].name@,
                    ),
            decreases mutation.attributes@.len() - i,
        {
            let attr_name = AttributeName::new(mutation.attributes[i].name.clone());
            let present = self.attribute_exists(&stream_name, &event_name, &attr_name);
            proof {
                assert(stream_name@ == mutation.stream@);
                assert(event_name@ == mutation.event@);
                assert(attr_name@ == mutation.attributes@[i as int].name@);
                assert(present == self.has_attribute(
                    mutation.stream@,
                    mutation.event@,
                    mutation.attributes@[i as int].name@,
                ));
            }
            if !present {
                let m = error_text(
                    "Attribute '",
                    mutation.attributes[i].name.as_str(),
                    "' not found in event",
                );
                proof {
                    assert(m@ == "Attribute '"@ + mutation.attributes@[i as int].name@
                        + "' not found in event"@);
                }
                return Err(m);
            }
            i += 1;
        }
        Ok(())
    }
}

/// Glues a quoted subject into an error message.
fn error_text(before: &str, subject: &str, after: &str) -> (r: String)
    ensures
        r@ == before@ + subject@ + after@,
{
    let mut m = before.to_owned();
    m.append(subject);
    m.append(after);
    m
}

} // verus!
