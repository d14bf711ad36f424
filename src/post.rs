use vstd::prelude::*;

use crate::sealed::PostStateSecured;
use crate::user;

verus! {

/// The identifier of a post.
#[derive(Clone, Debug, PartialEq)]
pub struct Id(u64);

impl Id {
    pub closed spec fn view(&self) -> u64 {
        self.0
    }

    pub fn new(data: u64) -> (id: Self)
        ensures
            id@ == data,
    {
        Id(data)
    }
}

/// The title of a post.
#[derive(Clone, Debug, PartialEq)]
pub struct Title(String);

impl Title {
    pub closed spec fn view(&self) -> Seq<char> {
        self.0@
    }

    pub fn new(data: String) -> (t: Self)
        ensures
            t@ == data@,
    {
        Title(data)
    }
}

/// The text of a post.
#[derive(Clone, Debug, PartialEq)]
pub struct Body(String);

impl Body {
    pub closed spec fn view(&self) -> Seq<char> {
        self.0@
    }

    pub fn new(data: String) -> (b: Self)
        ensures
            b@ == data@,
    {
        Body(data)
    }
}

/// A stage of a post's workflow.
pub trait PostState: PostStateSecured {}

/// Written, not yet submitted.
pub struct New;

/// Submitted, waiting for a moderator.
pub struct Unmoderated;

/// Allowed by a moderator and visible.
pub struct Published;

/// Denied by a moderator or deleted after publication.
pub struct Deleted;

impl PostStateSecured for New {}

impl PostStateSecured for Unmoderated {}

impl PostStateSecured for Published {}

impl PostStateSecured for Deleted {}

impl PostState for New {}

impl PostState for Unmoderated {}

impl PostState for Published {}

impl PostState for Deleted {}

/// A post in the workflow stage `S`. Each transition consumes the post and
/// returns it in the next stage, so a skipped or repeated step does not
/// compile.
#[derive(Clone)]
pub struct Post<S: PostState> {
    id: Id,
    user_id: user::Id,
    title: Title,
    body: Body,
    state: S,
}

impl<S: PostState> Post<S> {
    pub closed spec fn id(&self) -> u64 {
        self.id@
    }

    pub closed spec fn user_id(&self) -> u64 {
        self.user_id@
    }

    pub closed spec fn title(&self) -> Seq<char> {
        self.title@
    }

    pub closed spec fn body(&self) -> Seq<char> {
        self.body@
    }

    /// The same post in stage `to`.
    fn transform<U: PostState>(self, to: U) -> (p: Post<U>)
        ensures
            p.id() == self.id(),
            p.user_id() == self.user_id(),
            p.title() == self.title(),
            p.body() == self.body(),
    {
        Post { id: self.id, user_id: self.user_id, title: self.title, body: self.body, state: to }
    }
}

impl Post<New> {
    pub fn new(id: Id, user_id: user::Id, title: Title, body: Body) -> (p: Self)
        ensures
            p.id() == id@,
            p.user_id() == user_id@,
            p.title() == title@,
            p.body() == body@,
    {
        Post { id, user_id, title, body, state: New }
    }

    /// Submits the post for moderation.
    pub fn publish(self) -> (p: Post<Unmoderated>)
        ensures
            p.id() == self.id(),
            p.user_id() == self.user_id(),
            p.title() == self.title(),
            p.body() == self.body(),
    {
        self.transform(Unmoderated)
    }
}

impl Post<Unmoderated> {
    /// A moderator lets the post through.
    pub fn allow(self) -> (p: Post<Published>)
        ensures
            p.id() == self.id(),
            p.user_id() == self.user_id(),
            p.title() == self.title(),
            p.body() == self.body(),
    {
        self.transform(Published)
    }

    /// A moderator turns the post down.
    pub fn deny(self) -> (p: Post<Deleted>)
        ensures
            p.id() == self.id(),
            p.user_id() == self.user_id(),
            p.title() == self.title(),
            p.body() == self.body(),
    {
        self.transform(Deleted)
    }
}

impl Post<Published> {
    /// Takes a published post down.
    pub fn delete(self) -> (p: Post<Deleted>)
        ensures
            p.id() == self.id(),
            p.user_id() == self.user_id(),
            p.title() == self.title(),
            p.body() == self.body(),
    {
        self.transform(Deleted)
    }
}

} // verus!
