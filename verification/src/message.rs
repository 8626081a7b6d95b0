//! The archived messages: identifiers, reply edges, timestamps and text.

use vstd::prelude::*;

verus! {

/// One stretch of a message's text.
#[derive(Debug, PartialEq, Eq)]
pub enum TextEntity {
    /// Ordinary prose: its words are indexed and can be highlighted.
    Lemmatizable(String),
    /// Text that is shown as it stands and never looked into.
    Illemmatizable(String),
}

/// What a stretch of text holds.
pub enum Segment {
    Lemmatizable(Seq<char>),
    Illemmatizable(Seq<char>),
}

impl Segment {
    /// The characters of the stretch, whatever its kind.
    pub open spec fn text(self) -> Seq<char> {
        match self {
            Segment::Lemmatizable(t) => t,
            Segment::Illemmatizable(t) => t,
        }
    }
}

impl View for TextEntity {
    type V = Segment;

    open spec fn view(&self) -> Segment {
        match self {
            TextEntity::Lemmatizable(t) => Segment::Lemmatizable(t@),
            TextEntity::Illemmatizable(t) => Segment::Illemmatizable(t@),
        }
    }
}

impl Clone for TextEntity {
    fn clone(&self) -> (out: TextEntity)
        ensures
            out@ == self@,
    {
        match self {
            TextEntity::Lemmatizable(t) => TextEntity::Lemmatizable(t.clone()),
            TextEntity::Illemmatizable(t) => TextEntity::Illemmatizable(t.clone()),
        }
    }
}

/// One archived message.
#[derive(Debug, PartialEq, Eq)]
pub struct Message {
    /// The message's position in arrival order.
    pub id: usize,
    /// The message that this one answers, if any.
    pub reply_to_message_id: Option<usize>,
    /// When the message was sent, in seconds since the epoch.
    pub date_unixtime: u32,
    /// The text, stretch by stretch.
    pub text_entities: Vec<TextEntity>,
}

/// What a message holds.
pub struct MessageView {
    pub id: usize,
    pub reply_to: Option<usize>,
    pub date: u32,
    pub segments: Seq<Segment>,
}

impl View for Message {
    type V = MessageView;

    open spec fn view(&self) -> MessageView {
        MessageView {
            id: self.id,
            reply_to: self.reply_to_message_id,
            date: self.date_unixtime,
            segments: segment_views(self.text_entities@),
        }
    }
}

impl Clone for Message {
    fn clone(&self) -> (out: Message)
        ensures
            out@ == self@,
    {
        let mut text_entities: Vec<TextEntity> = Vec::new();
        let mut k: usize = 0;
        while k < self.text_entities.len()
            invariant
                k <= self.text_entities.len(),
                text_entities.len() == k,
                forall|i: int|
                    0 <= i < k ==> (#[trigger] text_entities[i])@ == self.text_entities[i]@,
            decreases self.text_entities.len() - k,
        {
            text_entities.push(self.text_entities[k].clone());
            k = k + 1;
        }
        assert(segment_views(text_entities@) =~= segment_views(self.text_entities@));
        Message {
            id: self.id,
            reply_to_message_id: self.reply_to_message_id,
            date_unixtime: self.date_unixtime,
            text_entities,
        }
    }
}

/// What a list of text stretches holds.
pub open spec fn segment_views(entities: Seq<TextEntity>) -> Seq<Segment> {
    Seq::new(entities.len(), |i: int| entities[i]@)
}

/// What a list of messages holds.
pub open spec fn archive_view(messages: Seq<Message>) -> Seq<MessageView> {
    Seq::new(messages.len(), |i: int| messages[i]@)
}

/// The message at position `p` carries that position as its identifier and
/// answers no later message.
pub open spec fn well_placed(archive: Seq<MessageView>, p: int) -> bool {
    &&& archive[p].id == p
    &&& archive[p].reply_to matches Some(r) ==> r <= p
}

/// Every message of the archive is well placed.
pub open spec fn well_formed(archive: Seq<MessageView>) -> bool {
    forall|p: int| 0 <= p < archive.len() ==> well_placed(archive, p)
}

/// Position `p` holds the first message that is not well placed.
pub open spec fn first_misplaced_at(archive: Seq<MessageView>, p: int) -> bool {
    &&& 0 <= p < archive.len()
    &&& !well_placed(archive, p)
    &&& forall|q: int| 0 <= q < p ==> well_placed(archive, q)
}

/// The first position whose message is not well placed, if there is one.
pub fn first_misplaced(messages: &Vec<Message>) -> (found: Option<usize>)
    ensures
        match found {
            None => well_formed(archive_view(messages@)),
            Some(p) => first_misplaced_at(archive_view(messages@), p as int),
        },
{
    let ghost archive = archive_view(messages@);
    let mut p: usize = 0;
    while p < messages.len()
        invariant
            p <= messages.len(),
            archive == archive_view(messages@),
            forall|q: int| 0 <= q < p ==> well_placed(archive, q),
        decreases messages.len() - p,
    {
        let message = &messages[p];
        let answers_later = match message.reply_to_message_id {
            Some(r) => r > p,
            None => false,
        };
        if message.id != p || answers_later {
            return Some(p);
        }
        p = p + 1;
    }
    None
}

/// The text of some stretches, one after the other.
pub open spec fn plain_text(segments: Seq<Segment>) -> Seq<char>
    decreases segments.len(),
{
    if segments.len() == 0 {
        Seq::empty()
    } else {
        plain_text(segments.drop_last()) + segments.last().text()
    }
}

/// The whole text of a message as one string, nothing marked.
pub fn render_plain(message: &Message) -> (out: String)
    ensures
        out@ == plain_text(message@.segments),
{
    let mut out = String::new();
    let mut k: usize = 0;
    let ghost segments = message@.segments;
    while k < message.text_entities.len()
        invariant
            k <= message.text_entities.len(),
            segments == message@.segments,
            out@ == plain_text(segments.take(k as int)),
        decreases message.text_entities.len() - k,
    {
        match &message.text_entities[k] {
            TextEntity::Lemmatizable(t) => out.append(t.as_str()),
            TextEntity::Illemmatizable(t) => out.append(t.as_str()),
        }
        proof {
            assert(segments.take(k + 1).drop_last() =~= segments.take(k as int));
        }
        k = k + 1;
    }
    assert(segments.take(k as int) =~= segments);
    out
}

} // verus!
