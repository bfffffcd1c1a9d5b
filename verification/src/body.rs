//! Bodies that arrive or leave in pieces, uploads, and work left for later.
use crate::contract::{scalar_view, SchemaKind, TypeDescriptor, TypeView};
use crate::operation::{opt_text, ApiSchema, ResponseHeader};
use vstd::prelude::*;
use vstd::string::*;

verus! {

// ---------------------------------------------------------------------------
// Failures of streams and deferred work
// ---------------------------------------------------------------------------

/// A failure produced while a body is being read or written in pieces.
#[derive(Clone, Debug, PartialEq, Eq)]
pub struct BodyStreamError {
    pub code: String,
    pub message: String,
}

impl BodyStreamError {
    #[must_use]
    pub fn new(code: &str, message: &str) -> (error: Self)
        ensures
            error.code@ == code@,
            error.message@ == message@,
    {
        BodyStreamError { code: code.to_owned(), message: message.to_owned() }
    }

    /// The failure as shown to people: its message.
    #[must_use]
    pub fn to_string(&self) -> (text: String)
        ensures
            text@ == self.message@,
    {
        self.message.clone()
    }
}

/// A failure of an upgraded connection.
#[derive(Clone, Debug, PartialEq, Eq)]
pub struct UpgradeIoError {
    pub code: String,
    pub message: String,
}

impl UpgradeIoError {
    #[must_use]
    pub fn new(code: &str, message: &str) -> (error: Self)
        ensures
            error.code@ == code@,
            error.message@ == message@,
    {
        UpgradeIoError { code: code.to_owned(), message: message.to_owned() }
    }

    /// The failure as shown to people: its message.
    #[must_use]
    pub fn to_string(&self) -> (text: String)
        ensures
            text@ == self.message@,
    {
        self.message.clone()
    }
}

/// A failure of work that ran after its response was sent.
#[derive(Clone, Debug, PartialEq, Eq)]
pub struct BackgroundTaskError {
    pub code: String,
    pub message: String,
}

impl BackgroundTaskError {
    #[must_use]
    pub fn new(code: &str, message: &str) -> (error: Self)
        ensures
            error.code@ == code@,
            error.message@ == message@,
    {
        BackgroundTaskError { code: code.to_owned(), message: message.to_owned() }
    }

    /// The failure as shown to people: its message.
    #[must_use]
    pub fn to_string(&self) -> (text: String)
        ensures
            text@ == self.message@,
    {
        self.message.clone()
    }
}

// ---------------------------------------------------------------------------
// Bodies in pieces
// ---------------------------------------------------------------------------

/// A body that is produced piece by piece by a stream of type `S`.
#[derive(Debug)]
pub struct StreamingBody<S> {
    pub stream: S,
    pub exact_length: Option<u64>,
}

impl<S> StreamingBody<S> {
    /// A body whose length is not known beforehand.
    #[must_use]
    pub fn new(stream: S) -> (body: Self)
        ensures
            body == (StreamingBody { stream, exact_length: None }),
    {
        StreamingBody { stream, exact_length: None }
    }

    /// States the exact number of bytes the stream will produce.
    #[must_use]
    pub fn with_exact_length(self, length: u64) -> (body: Self)
        ensures
            body == (StreamingBody { exact_length: Some(length), ..self }),
    {
        StreamingBody { stream: self.stream, exact_length: Some(length) }
    }

    #[must_use]
    pub fn exact_length(&self) -> (length: Option<u64>)
        ensures
            length == self.exact_length,
    {
        self.exact_length
    }
}

/// The chunks of a body that is held in memory, in order.
#[derive(Clone, Debug, PartialEq, Eq)]
pub struct Chunks {
    pub remaining: Vec<Vec<u8>>,
}

impl Chunks {
    /// Hands out the next chunk; nothing comes once all were handed out.
    pub fn next_chunk(&mut self) -> (chunk: Option<Vec<u8>>)
        ensures
            match chunk {
                Some(chunk) => old(self).remaining@ == seq![chunk] + final(self).remaining@,
                None => old(self).remaining@.len() == 0 && final(self).remaining@.len() == 0,
            },
    {
        if self.remaining.len() == 0 {
            return None;
        }
        let chunk = self.remaining.remove(0);
        assert(old(self).remaining@ =~= seq![chunk] + self.remaining@);
        Some(chunk)
    }
}

impl StreamingBody<Chunks> {
    /// A body that yields the given chunks in order.
    #[must_use]
    pub fn from_chunks(chunks: Vec<Vec<u8>>) -> (body: Self)
        ensures
            body.stream.remaining == chunks,
            body.exact_length is None,
    {
        StreamingBody::new(Chunks { remaining: chunks })
    }

    /// A body of one chunk, with its exact length.
    #[must_use]
    pub fn once(bytes: Vec<u8>) -> (body: Self)
        ensures
            body.stream.remaining@ == seq![bytes],
            body.exact_length == Some(bytes@.len() as u64),
    {
        let length = bytes.len() as u64;
        let mut chunks: Vec<Vec<u8>> = Vec::new();
        chunks.push(bytes);
        assert(chunks@ =~= seq![bytes]);
        StreamingBody::from_chunks(chunks).with_exact_length(length)
    }
}

impl<S> ApiSchema for StreamingBody<S> {
    open spec fn described() -> TypeView {
        scalar_view("StreamingBody"@, SchemaKind::Binary)
    }

    fn type_descriptor() -> (ty: TypeDescriptor) {
        TypeDescriptor::scalar("StreamingBody", SchemaKind::Binary)
    }
}

/// A successful protocol upgrade whose handler has type `H`.
#[derive(Debug)]
pub struct HttpUpgrade<H> {
    pub protocol: &'static str,
    pub headers: Vec<ResponseHeader>,
    pub handler: Option<H>,
}

impl<H> HttpUpgrade<H> {
    #[must_use]
    pub fn new(protocol: &'static str, headers: Vec<ResponseHeader>, handler: H) -> (upgrade: Self)
        ensures
            upgrade == (HttpUpgrade { protocol, headers, handler: Some(handler) }),
    {
        HttpUpgrade { protocol, headers, handler: Some(handler) }
    }

    #[must_use]
    pub fn protocol(&self) -> (protocol: &'static str)
        ensures
            protocol == self.protocol,
    {
        self.protocol
    }

    #[must_use]
    pub fn headers(&self) -> (headers: &[ResponseHeader])
        ensures
            headers@ == self.headers@,
    {
        self.headers.as_slice()
    }

    /// Adds headers after those the upgrade already carries.
    pub fn extend_headers(&mut self, headers: Vec<ResponseHeader>)
        ensures
            final(self).headers@ == old(self).headers@ + headers@,
            final(self).protocol == old(self).protocol,
            final(self).handler == old(self).handler,
    {
        let mut added = headers;
        self.headers.append(&mut added);
    }

    /// Hands out the handler, which can run once.
    pub fn take_handler(&mut self) -> (handler: Result<H, UpgradeIoError>)
        ensures
            match handler {
                Ok(handler) => old(self).handler == Some(handler),
                Err(error) => {
                    &&& old(self).handler is None
                    &&& error.code@ == "upgrade_already_consumed"@
                    &&& error.message@ == "the protocol upgrade handler has already been consumed"@
                },
            },
            *final(self) == (HttpUpgrade { handler: None, ..*old(self) }),
    {
        match self.handler.take() {
            Some(handler) => Ok(handler),
            None => Err(
                UpgradeIoError::new(
                    "upgrade_already_consumed",
                    "the protocol upgrade handler has already been consumed",
                ),
            ),
        }
    }
}

impl<H> ApiSchema for HttpUpgrade<H> {
    open spec fn described() -> TypeView {
        scalar_view("HttpUpgrade"@, SchemaKind::Binary)
    }

    fn type_descriptor() -> (ty: TypeDescriptor) {
        TypeDescriptor::scalar("HttpUpgrade", SchemaKind::Binary)
    }
}

// ---------------------------------------------------------------------------
// Work left for later
// ---------------------------------------------------------------------------

/// Work of type `F` that runs after a response was sent, once.
#[derive(Debug)]
pub struct BackgroundTask<F> {
    pub task: Option<F>,
}

impl<F> BackgroundTask<F> {
    #[must_use]
    pub fn new(task: F) -> (created: Self)
        ensures
            created.task == Some(task),
    {
        BackgroundTask { task: Some(task) }
    }

    /// Hands out the work, which can run once.
    pub fn take(&mut self) -> (task: Result<F, BackgroundTaskError>)
        ensures
            match task {
                Ok(task) => old(self).task == Some(task),
                Err(error) => {
                    &&& old(self).task is None
                    &&& error.code@ == "background_task_consumed"@
                    &&& error.message@ == "background task has already been consumed"@
                },
            },
            final(self).task is None,
    {
        match self.task.take() {
            Some(task) => Ok(task),
            None => Err(
                BackgroundTaskError::new(
                    "background_task_consumed",
                    "background task has already been consumed",
                ),
            ),
        }
    }
}

/// A response together with the work to run once it was sent.
#[derive(Debug)]
pub struct Background<T, F> {
    pub response: T,
    pub tasks: Vec<BackgroundTask<F>>,
}

impl<T, F> Background<T, F> {
    #[must_use]
    pub fn new(response: T) -> (background: Self)
        ensures
            background.response == response,
            background.tasks@.len() == 0,
    {
        Background { response, tasks: Vec::new() }
    }

    /// Adds work behind what is already there.
    #[must_use]
    pub fn task(self, task: BackgroundTask<F>) -> (background: Self)
        ensures
            background.response == self.response,
            background.tasks@ == self.tasks@.push(task),
    {
        let mut updated = self;
        updated.tasks.push(task);
        updated
    }

    #[must_use]
    pub fn into_parts(self) -> (parts: (T, Vec<BackgroundTask<F>>))
        ensures
            parts == (self.response, self.tasks),
    {
        (self.response, self.tasks)
    }
}

impl<T: ApiSchema, F> ApiSchema for Background<T, F> {
    open spec fn described() -> TypeView {
        T::described()
    }

    fn type_descriptor() -> (ty: TypeDescriptor) {
        T::type_descriptor()
    }
}

/// Attaches work to any response.
pub trait BackgroundExt: Sized {
    #[must_use]
    fn background<F>(self, task: BackgroundTask<F>) -> (background: Background<Self, F>)
        ensures
            background.response == self,
            background.tasks@ == seq![task],
    ;
}

impl<T> BackgroundExt for T {
    fn background<F>(self, task: BackgroundTask<F>) -> (background: Background<Self, F>) {
        let background = Background::new(self).task(task);
        assert(background.tasks@ =~= seq![task]);
        background
    }
}

/// A request's handle for scheduling work that runs after the response.
///
/// What is scheduled is attached to the response whatever the outcome is,
/// unlike the work of a [`Background`], which rides on a success.
#[derive(Debug)]
pub struct BackgroundTasks<F> {
    pub tasks: Vec<BackgroundTask<F>>,
}

impl<F> Default for BackgroundTasks<F> {
    fn default() -> (scheduled: Self)
        ensures
            scheduled.tasks@.len() == 0,
    {
        BackgroundTasks::new()
    }
}

impl<F> BackgroundTasks<F> {
    #[must_use]
    pub fn new() -> (scheduled: Self)
        ensures
            scheduled.tasks@.len() == 0,
    {
        BackgroundTasks { tasks: Vec::new() }
    }

    /// Schedules a prepared task.
    pub fn add_task(&mut self, task: BackgroundTask<F>)
        ensures
            final(self).tasks@ == old(self).tasks@.push(task),
    {
        self.tasks.push(task);
    }

    /// Schedules an after-response task.
    pub fn add(&mut self, task: F)
        ensures
            final(self).tasks@ == old(self).tasks@.push(BackgroundTask { task: Some(task) }),
    {
        self.add_task(BackgroundTask::new(task));
    }

    /// Number of tasks scheduled so far.
    #[must_use]
    pub fn len(&self) -> (count: usize)
        ensures
            count == self.tasks@.len(),
    {
        self.tasks.len()
    }

    /// Returns whether nothing has been scheduled yet.
    #[must_use]
    pub fn is_empty(&self) -> (empty: bool)
        ensures
            empty == (self.tasks@.len() == 0),
    {
        self.tasks.len() == 0
    }

    /// Takes the scheduled tasks, leaving the handle empty.
    #[must_use]
    pub fn take(&mut self) -> (tasks: Vec<BackgroundTask<F>>)
        ensures
            tasks@ == old(self).tasks@,
            final(self).tasks@.len() == 0,
    {
        let mut tasks: Vec<BackgroundTask<F>> = Vec::new();
        std::mem::swap(&mut tasks, &mut self.tasks);
        tasks
    }
}

/// The first failure of work that ran one piece after another, each piece
/// having had its turn.
pub fn first_failure(results: Vec<Result<(), BackgroundTaskError>>) -> (result: Result<
    (),
    BackgroundTaskError,
>)
    ensures
        match result {
            Ok(_) => forall|i: int| 0 <= i < results@.len() ==> (#[trigger] results@[i]) is Ok,
            Err(error) => exists|i: int|
                {
                    &&& 0 <= i < results@.len()
                    &&& #[trigger] results@[i] == Err::<(), BackgroundTaskError>(error)
                    &&& forall|j: int| 0 <= j < i ==> (#[trigger] results@[j]) is Ok
                },
        },
{
    let ghost all = results@;
    let mut left = results;
    let ghost mut taken: int = 0;
    assert(all.skip(0) =~= all);
    while left.len() > 0
        invariant
            0 <= taken <= all.len(),
            left@ == all.skip(taken),
            all == results@,
            forall|i: int| 0 <= i < taken ==> (#[trigger] all[i]) is Ok,
        decreases left@.len(),
    {
        let result = left.remove(0);
        proof {
            assert(all.skip(taken)[0] == all[taken]);
            assert(left@ =~= all.skip(taken + 1));
        }
        if let Err(error) = result {
            assert(all[taken] == Err::<(), BackgroundTaskError>(error));
            return Err(error);
        }
        proof {
            taken = taken + 1;
        }
    }
    Ok(())
}

// ---------------------------------------------------------------------------
// Uploads
// ---------------------------------------------------------------------------

/// A buffered upload with its metadata.
#[derive(Clone, Debug, PartialEq, Eq)]
pub struct UploadFile {
    pub field_name: String,
    pub file_name: Option<String>,
    pub content_type: Option<String>,
    pub bytes: Vec<u8>,
}

/// What an upload holds.
#[verifier::ext_equal]
pub struct UploadView {
    pub field_name: Seq<char>,
    pub file_name: Option<Seq<char>>,
    pub content_type: Option<Seq<char>>,
    pub bytes: Seq<u8>,
}

impl View for UploadFile {
    type V = UploadView;

    open spec fn view(&self) -> UploadView {
        UploadView {
            field_name: self.field_name@,
            file_name: opt_text(self.file_name),
            content_type: opt_text(self.content_type),
            bytes: self.bytes@,
        }
    }
}

impl UploadFile {
    #[must_use]
    pub fn new(field_name: &str, bytes: Vec<u8>) -> (upload: Self)
        ensures
            upload@ == (UploadView {
                field_name: field_name@,
                file_name: None,
                content_type: None,
                bytes: bytes@,
            }),
    {
        UploadFile { field_name: field_name.to_owned(), file_name: None, content_type: None, bytes }
    }

    #[must_use]
    pub fn with_file_name(self, file_name: &str) -> (upload: Self)
        ensures
            upload@ == (UploadView { file_name: Some(file_name@), ..self@ }),
    {
        let mut updated = self;
        updated.file_name = Some(file_name.to_owned());
        updated
    }

    #[must_use]
    pub fn with_content_type(self, content_type: &str) -> (upload: Self)
        ensures
            upload@ == (UploadView { content_type: Some(content_type@), ..self@ }),
    {
        let mut updated = self;
        updated.content_type = Some(content_type.to_owned());
        updated
    }
}

impl ApiSchema for UploadFile {
    open spec fn described() -> TypeView {
        scalar_view("UploadFile"@, SchemaKind::Binary)
    }

    fn type_descriptor() -> (ty: TypeDescriptor) {
        TypeDescriptor::scalar("UploadFile", SchemaKind::Binary)
    }
}

} // verus!
