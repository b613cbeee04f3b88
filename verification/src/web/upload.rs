//! Uploads: how a form is read, and what it has to hold.

use vstd::prelude::*;
use vstd::utf8::encode_utf8;
use crate::crypto::container::MAX_METADATA_LEN;
use crate::crypto::primitives::TAG_LEN;
use crate::text::lemma_utf8_len;
use crate::web::error::{refusal, ApiError, Refusal, BAD_REQUEST, PAYLOAD_TOO_LARGE};
use crate::web::sanitize::{law_sanitized_is_harmless, sanitize_filename, sanitized};
use crate::web::settings::{MAX_PASSWORD_LEN, MIN_PASSWORD_LEN};

verus! {

/// What the reading of a form asks for next.
#[derive(Clone, Copy, Debug, PartialEq, Eq, Structural)]
pub enum UploadAsk {
    /// The next field.
    NextField,
    /// The text of the field.
    ReadText,
    /// The bytes of the field.
    ReadBytes,
    /// To read the field and forget it.
    Drain,
}

/// What came of it. `T` stands for a text, `B` for bytes.
#[derive(Debug)]
pub enum UploadEvent<T, B> {
    /// A field begins, with this name and perhaps a file name.
    FieldBegins { name: T, filename: Option<T> },
    /// There are no more fields.
    End,
    /// The form cannot be read, for a reason with this HTTP status.
    Failed(u16),
    /// The text of the field, if it could be read.
    TextRead(Option<T>),
    /// The bytes of the field, or the HTTP status of the reason why not.
    BytesRead(Result<B, u16>),
    /// The field was read and forgotten.
    Drained,
}

/// A form that is being read.
#[derive(Debug)]
pub struct UploadForm<T, B> {
    /// The password.
    pub password: Option<T>,
    /// The name of the file.
    pub filename: Option<T>,
    /// The content of the file.
    pub data: Option<B>,
    /// The file name of the field that is being read.
    pub claimed: Option<T>,
    /// What is asked for next.
    pub asked: UploadAsk,
}

/// A form that holds what it has to.
#[derive(Debug)]
pub struct Upload<T, B> {
    /// The password.
    pub password: T,
    /// The name of the file.
    pub filename: T,
    /// The content of the file.
    pub data: B,
}

/// Where the reading of a form stands. `E` stands for a refusal.
#[derive(Debug)]
pub enum UploadStep<T, B, E> {
    /// There is more to read.
    Reading(UploadForm<T, B>),
    /// The form was read, and taken or refused.
    Finished(Result<Upload<T, B>, E>),
}

/// [`UploadForm`] as contracts speak of it.
pub type FormView = UploadForm<Seq<char>, Seq<u8>>;

/// [`UploadEvent`] as contracts speak of it.
pub type EventView = UploadEvent<Seq<char>, Seq<u8>>;

/// [`UploadStep`] as contracts speak of it.
pub type StepView = UploadStep<Seq<char>, Seq<u8>, Refusal>;

/// [`Upload`] as contracts speak of it.
pub type UploadView = Upload<Seq<char>, Seq<u8>>;

/// The text behind an `Option`.
pub open spec fn some_text(text: Option<String>) -> Option<Seq<char>> {
    match text {
        Some(t) => Some(t@),
        None => None,
    }
}

/// The bytes behind an `Option`.
pub open spec fn some_bytes(bytes: Option<Vec<u8>>) -> Option<Seq<u8>> {
    match bytes {
        Some(b) => Some(b@),
        None => None,
    }
}

impl View for UploadForm<String, Vec<u8>> {
    type V = UploadForm<Seq<char>, Seq<u8>>;

    open spec fn view(&self) -> UploadForm<Seq<char>, Seq<u8>> {
        UploadForm {
            password: some_text(self.password),
            filename: some_text(self.filename),
            data: some_bytes(self.data),
            claimed: some_text(self.claimed),
            asked: self.asked,
        }
    }
}

impl View for UploadEvent<String, Vec<u8>> {
    type V = UploadEvent<Seq<char>, Seq<u8>>;

    open spec fn view(&self) -> UploadEvent<Seq<char>, Seq<u8>> {
        match *self {
            UploadEvent::FieldBegins { name, filename } => UploadEvent::FieldBegins {
                name: name@,
                filename: some_text(filename),
            },
            UploadEvent::End => UploadEvent::End,
            UploadEvent::Failed(status) => UploadEvent::Failed(status),
            UploadEvent::TextRead(text) => UploadEvent::TextRead(some_text(text)),
            UploadEvent::BytesRead(r) => UploadEvent::BytesRead(
                match r {
                    Ok(bytes) => Ok(bytes@),
                    Err(status) => Err(status),
                },
            ),
            UploadEvent::Drained => UploadEvent::Drained,
        }
    }
}

impl View for Upload<String, Vec<u8>> {
    type V = Upload<Seq<char>, Seq<u8>>;

    open spec fn view(&self) -> Upload<Seq<char>, Seq<u8>> {
        Upload { password: self.password@, filename: self.filename@, data: self.data@ }
    }
}

impl View for UploadStep<String, Vec<u8>, ApiError> {
    type V = UploadStep<Seq<char>, Seq<u8>, Refusal>;

    open spec fn view(&self) -> UploadStep<Seq<char>, Seq<u8>, Refusal> {
        match *self {
            UploadStep::Reading(form) => UploadStep::Reading(form@),
            UploadStep::Finished(r) => UploadStep::Finished(
                match r {
                    Ok(upload) => Ok(upload@),
                    Err(e) => Err(e@),
                },
            ),
        }
    }
}

/// Whether `event` is of the kind that answers `asked`.
pub open spec fn event_answers(asked: UploadAsk, event: EventView) -> bool {
    match asked {
        UploadAsk::NextField => event is FieldBegins || event is End || event is Failed,
        UploadAsk::ReadText => event is TextRead,
        UploadAsk::ReadBytes => event is BytesRead,
        UploadAsk::Drain => event is Drained,
    }
}

/// The refusal of a form that cannot be read, for a reason with this status.
pub open spec fn unreadable(status: u16) -> Refusal {
    refusal(
        status,
        if status == PAYLOAD_TOO_LARGE {
            "File exceeds the configured upload limit"@
        } else {
            "Malformed upload"@
        },
    )
}

/// What a form that was read makes.
pub open spec fn accepted(form: FormView) -> Result<UploadView, Refusal> {
    match form.password {
        None => Err(refusal(BAD_REQUEST, "Password is required"@)),
        Some(password) => if password.len() < MIN_PASSWORD_LEN {
            Err(refusal(BAD_REQUEST, "Password must be at least 12 characters"@))
        } else if encode_utf8(password).len() > MAX_PASSWORD_LEN {
            Err(refusal(BAD_REQUEST, "Password is too long"@))
        } else {
            match form.data {
                None => Err(refusal(BAD_REQUEST, "File is required"@)),
                Some(data) => if data.len() == 0 {
                    Err(refusal(BAD_REQUEST, "File is empty"@))
                } else {
                    Ok(
                        Upload {
                            password,
                            filename: sanitized(
                                match form.filename {
                                    Some(name) => name,
                                    None => Seq::empty(),
                                },
                            ),
                            data,
                        },
                    )
                },
            }
        },
    }
}

impl UploadForm<Seq<char>, Seq<u8>> {
    /// What follows an event. Of several fields with the same name the last one
    /// counts; fields with other names count for nothing.
    pub open spec fn after(self, event: EventView) -> StepView {
        match event {
            UploadEvent::FieldBegins { name, filename } => UploadStep::Reading(
                if name == "password"@ {
                    UploadForm { asked: UploadAsk::ReadText, ..self }
                } else if name == "file"@ {
                    UploadForm { asked: UploadAsk::ReadBytes, claimed: filename, ..self }
                } else {
                    UploadForm { asked: UploadAsk::Drain, ..self }
                },
            ),
            UploadEvent::End => UploadStep::Finished(accepted(self)),
            UploadEvent::Failed(status) => UploadStep::Finished(Err(unreadable(status))),
            UploadEvent::TextRead(Some(text)) => UploadStep::Reading(
                UploadForm { password: Some(text), asked: UploadAsk::NextField, ..self },
            ),
            UploadEvent::TextRead(None) => UploadStep::Finished(
                Err(refusal(BAD_REQUEST, "Malformed upload"@)),
            ),
            UploadEvent::BytesRead(Ok(bytes)) => UploadStep::Reading(
                UploadForm {
                    filename: self.claimed,
                    data: Some(bytes),
                    claimed: None,
                    asked: UploadAsk::NextField,
                    ..self
                },
            ),
            UploadEvent::BytesRead(Err(status)) => UploadStep::Finished(Err(unreadable(status))),
            UploadEvent::Drained => UploadStep::Reading(
                UploadForm { asked: UploadAsk::NextField, ..self },
            ),
        }
    }
}

/// Where the reading of a form stands after the events `done`.
pub open spec fn form_at(done: Seq<EventView>) -> StepView
    decreases done.len(),
{
    if done.len() == 0 {
        UploadStep::Reading(
            UploadForm {
                password: None,
                filename: None,
                data: None,
                claimed: None,
                asked: UploadAsk::NextField,
            },
        )
    } else {
        match form_at(done.drop_last()) {
            UploadStep::Reading(form) => form.after(done.last()),
            UploadStep::Finished(r) => UploadStep::Finished(r),
        }
    }
}

/// Whether `done` are events of the reading of a form, from its beginning on.
pub open spec fn is_form_reading(done: Seq<EventView>) -> bool
    decreases done.len(),
{
    done.len() > 0 ==> {
        &&& is_form_reading(done.drop_last())
        &&& form_at(done.drop_last()) matches UploadStep::Reading(form)
        &&& event_answers(form.asked, done.last())
    }
}

/// Whether the event with index `i` has read the content of a field with this
/// name.
pub open spec fn reads_field(done: Seq<EventView>, i: int, name: Seq<char>) -> bool {
    &&& 1 <= i < done.len()
    &&& done[i - 1] matches UploadEvent::FieldBegins { name: n, .. }
    &&& n == name
}

/// Whether the event with index `i` has read the content of the last field with
/// this name.
pub open spec fn reads_last_field(done: Seq<EventView>, i: int, name: Seq<char>) -> bool {
    &&& reads_field(done, i, name)
    &&& forall|j: int| i < j < done.len() ==> !#[trigger] reads_field(done, j, name)
}

/// Whether `form` holds the last password field and the last file field that
/// were read by the events `done`.
pub open spec fn holds_last_fields(done: Seq<EventView>, form: FormView) -> bool {
    &&& match form.password {
        Some(text) => exists|i: int| #[trigger]
            reads_last_field(done, i, "password"@) && done[i] == EventView::TextRead(Some(text)),
        None => forall|i: int| !#[trigger] reads_field(done, i, "password"@),
    }
    &&& match form.data {
        Some(bytes) => exists|i: int| #[trigger]
            reads_last_field(done, i, "file"@) && done[i] == EventView::BytesRead(Ok(bytes))
                && done[i - 1]->filename == form.filename,
        None => forall|i: int| !#[trigger] reads_field(done, i, "file"@),
    }
}

proof fn lemma_fields_extend(done: Seq<EventView>, name: Seq<char>, i: int)
    requires
        done.len() > 0,
    ensures
        i < done.len() - 1 ==> reads_field(done, i, name) == reads_field(
            done.drop_last(),
            i,
            name,
        ),
        reads_last_field(done.drop_last(), i, name) && !reads_field(done, done.len() - 1, name)
            ==> reads_last_field(done, i, name),
{
    let before = done.drop_last();
    if reads_last_field(before, i, name) && !reads_field(done, done.len() - 1, name) {
        assert forall|j: int| i < j < done.len() implies !#[trigger] reads_field(
            done,
            j,
            name,
        ) by {
            if j < done.len() - 1 {
                assert(reads_field(before, j, name) == reads_field(done, j, name));
            }
        }
    }
}

proof fn lemma_form(done: Seq<EventView>)
    requires
        is_form_reading(done),
    ensures
        form_at(done) matches UploadStep::Reading(form) ==> {
            &&& holds_last_fields(
                if form.asked == UploadAsk::NextField {
                    done
                } else {
                    done.drop_last()
                },
                form,
            )
            &&& match form.asked {
                UploadAsk::NextField => done.len() > 0 ==> !(done.last() is FieldBegins),
                UploadAsk::ReadText => done.len() > 0 && (done.last() matches UploadEvent::FieldBegins {
                    name,
                    ..
                } && name == "password"@),
                UploadAsk::ReadBytes => done.len() > 0 && (
                done.last() matches UploadEvent::FieldBegins { name, filename } && name
                    == "file"@ && filename == form.claimed),
                UploadAsk::Drain => done.len() > 0 && (done.last() matches UploadEvent::FieldBegins {
                    name,
                    ..
                } && name != "password"@ && name != "file"@),
            }
        },
    decreases done.len(),
{
    if done.len() > 0 {
        let before = done.drop_last();
        lemma_form(before);
        reveal_with_fuel(is_form_reading, 3);
        reveal_with_fuel(form_at, 3);
        reveal_strlit("password");
        reveal_strlit("file");
        if let UploadStep::Reading(form) = form_at(done) {
            let old_form = form_at(before)->Reading_0;
            if old_form.asked == UploadAsk::NextField {
                assert(holds_last_fields(before, form));
            } else {
                let n = done.len() - 1;
                let early = before.drop_last();
                assert(done[n - 1] == before.last());
                lemma_form(early);
                if n > 1 {
                    assert(done[n - 2] == early.last());
                }
                lemma_field_read(done, form, old_form);
            }
        }
    } else {
        assert(holds_last_fields(done, form_at(done)->Reading_0));
    }
}

proof fn lemma_field_read(done: Seq<EventView>, form: FormView, old_form: FormView)
    requires
        done.len() > 1,
        holds_last_fields(done.drop_last().drop_last(), old_form),
        done[done.len() - 2] matches UploadEvent::FieldBegins { name, filename } && match done.last() {
            UploadEvent::TextRead(Some(text)) => name == "password"@ && form == (FormView {
                password: Some(text),
                asked: UploadAsk::NextField,
                ..old_form
            }),
            UploadEvent::BytesRead(Ok(bytes)) => name == "file"@ && form == (FormView {
                filename,
                data: Some(bytes),
                claimed: None,
                asked: UploadAsk::NextField,
                ..old_form
            }),
            UploadEvent::Drained => name != "password"@ && name != "file"@ && form == (FormView {
                asked: UploadAsk::NextField,
                ..old_form
            }),
            _ => false,
        },
        done.len() > 2 ==> !(done[done.len() - 3] is FieldBegins),
    ensures
        holds_last_fields(done, form),
{
    let n = done.len() - 1;
    let before = done.drop_last();
    let early = before.drop_last();
    assert("password"@ != "file"@) by {
        reveal_strlit("password");
        reveal_strlit("file");
        assert("password"@.len() == 8);
    }
    assert(!reads_field(done, n - 1, "password"@) && !reads_field(done, n - 1, "file"@));
    assert(!reads_field(before, n - 1, "password"@) && !reads_field(before, n - 1, "file"@));
    let name = done[n - 1]->name;
    if name != "password"@ {
        if let Some(text) = old_form.password {
            let i = choose|i: int| #[trigger]
                reads_last_field(early, i, "password"@) && early[i] == EventView::TextRead(
                    Some(text),
                );
            lemma_fields_extend(before, "password"@, i);
            lemma_fields_extend(done, "password"@, i);
            assert(reads_last_field(done, i, "password"@));
        } else {
            assert forall|i: int| !#[trigger] reads_field(done, i, "password"@) by {
                lemma_fields_extend(before, "password"@, i);
                lemma_fields_extend(done, "password"@, i);
                assert(!reads_field(early, i, "password"@));
            }
        }
    } else {
        assert(reads_last_field(done, n, "password"@));
    }
    if name != "file"@ {
        if let Some(bytes) = old_form.data {
            let i = choose|i: int| #[trigger]
                reads_last_field(early, i, "file"@) && early[i] == EventView::BytesRead(Ok(bytes))
                    && early[i - 1]->filename == old_form.filename;
            lemma_fields_extend(before, "file"@, i);
            lemma_fields_extend(done, "file"@, i);
            assert(reads_last_field(done, i, "file"@));
        } else {
            assert forall|i: int| !#[trigger] reads_field(done, i, "file"@) by {
                lemma_fields_extend(before, "file"@, i);
                lemma_fields_extend(done, "file"@, i);
                assert(!reads_field(early, i, "file"@));
            }
        }
    } else {
        assert(reads_last_field(done, n, "file"@));
    }
}

/// Of the fields of a form with the same name the last one counts, and fields
/// with other names count for nothing: a form that is read to its end is judged
/// by its last password and its last file.
pub proof fn law_last_field_counts(done: Seq<EventView>)
    requires
        is_form_reading(done),
        done.len() > 0,
        done.last() is End,
    ensures
        exists|form: FormView| #[trigger]
            holds_last_fields(done.drop_last(), form) && form_at(done) == StepView::Finished(
                accepted(form),
            ),
{
    let before = done.drop_last();
    lemma_form(before);
    let form = form_at(before)->Reading_0;
    assert(holds_last_fields(before, form));
}

/// An upload that is accepted has a password and a file name that encryption
/// takes, and a content that is not empty.
pub proof fn law_accepted_upload_fits(form: FormView)
    requires
        accepted(form) is Ok,
    ensures
        ({
            let upload = accepted(form)->Ok_0;
            &&& MIN_PASSWORD_LEN <= upload.password.len()
            &&& encode_utf8(upload.password).len() <= MAX_PASSWORD_LEN
            &&& 1 <= upload.filename.len()
            &&& encode_utf8(upload.filename).len() + TAG_LEN <= MAX_METADATA_LEN
            &&& 1 <= upload.data.len()
        }),
{
    let raw = match form.filename {
        Some(name) => name,
        None => Seq::empty(),
    };
    law_sanitized_is_harmless(raw);
    lemma_utf8_len(sanitized(raw));
}

/// What is accepted is what was uploaded: the password and the content as they
/// were read, to the last byte, and the file name that is made of the one that was
/// given.
pub proof fn law_accepted_is_what_was_uploaded(form: FormView)
    ensures
        accepted(form) matches Ok(upload) ==> {
            &&& form.password == Some(upload.password)
            &&& form.data == Some(upload.data)
            &&& form.filename matches Some(name) ==> upload.filename == sanitized(name)
            &&& form.filename is None ==> upload.filename == sanitized(Seq::empty())
        },
{
}

/// A form is accepted when it has a password of at least 12 characters and at most
/// 512 bytes, and a content that is not empty, of whatever length. Everything else
/// is refused as a bad request, for the first reason that there is.
pub proof fn law_accepted_exactly_when_complete(form: FormView)
    ensures
        accepted(form) is Ok <==> {
            &&& form.password matches Some(password)
            &&& password.len() >= 12
            &&& encode_utf8(password).len() <= 512
            &&& form.data matches Some(data)
            &&& data.len() > 0
        },
        accepted(form) matches Err(e) ==> e.status == 400 && e.message == match form.password {
            None => "Password is required"@,
            Some(password) => if password.len() < 12 {
                "Password must be at least 12 characters"@
            } else if encode_utf8(password).len() > 512 {
                "Password is too long"@
            } else if form.data is None {
                "File is required"@
            } else {
                "File is empty"@
            },
        },
{
}

/// A field is read by its name: the password as text, the file as bytes, and every
/// other field is forgotten. Behind a field the next one is asked for, and what
/// cannot be read is refused with the status of the reason.
pub proof fn law_fields_are_read_by_name(done: Seq<EventView>)
    requires
        is_form_reading(done),
        done.len() > 0,
    ensures
        match done.last() {
            UploadEvent::FieldBegins { name, .. } => form_at(done) matches UploadStep::Reading(form)
                && form.asked == if name == "password"@ {
                UploadAsk::ReadText
            } else if name == "file"@ {
                UploadAsk::ReadBytes
            } else {
                UploadAsk::Drain
            },
            UploadEvent::TextRead(Some(_)) => form_at(done) matches UploadStep::Reading(form)
                && form.asked == UploadAsk::NextField,
            UploadEvent::BytesRead(Ok(_)) => form_at(done) matches UploadStep::Reading(form)
                && form.asked == UploadAsk::NextField,
            UploadEvent::Drained => form_at(done) matches UploadStep::Reading(form) && form.asked
                == UploadAsk::NextField,
            UploadEvent::TextRead(None) => form_at(done) matches UploadStep::Finished(Err(e))
                && e.status == 400 && e.message == "Malformed upload"@,
            UploadEvent::BytesRead(Err(status)) => form_at(done) matches UploadStep::Finished(
                Err(e),
            ) && e.status == status && e.message == if status == 413 {
                "File exceeds the configured upload limit"@
            } else {
                "Malformed upload"@
            },
            UploadEvent::Failed(status) => form_at(done) matches UploadStep::Finished(Err(e))
                && e.status == status && e.message == if status == 413 {
                "File exceeds the configured upload limit"@
            } else {
                "Malformed upload"@
            },
            UploadEvent::End => form_at(done) is Finished,
        },
{
}

/// A form that is read to its end and accepted gives the text of its last password
/// field and the bytes of its last file field, as they were read.
pub proof fn law_upload_is_the_last_fields(done: Seq<EventView>)
    requires
        is_form_reading(done),
        done.len() > 0,
        done.last() is End,
    ensures
        form_at(done) matches UploadStep::Finished(Ok(upload)) ==> {
            &&& exists|i: int| #[trigger]
                reads_last_field(done.drop_last(), i, "password"@) && done[i]
                    == EventView::TextRead(Some(upload.password))
            &&& exists|i: int| #[trigger]
                reads_last_field(done.drop_last(), i, "file"@) && done[i]
                    == EventView::BytesRead(Ok(upload.data)) && upload.filename == sanitized(
                    match done[i - 1]->filename {
                        Some(name) => name,
                        None => Seq::empty(),
                    },
                )
        },
{
    let before = done.drop_last();
    law_last_field_counts(done);
    let form = choose|form: FormView| #[trigger]
        holds_last_fields(before, form) && form_at(done) == StepView::Finished(accepted(form));
    law_accepted_is_what_was_uploaded(form);
    if let UploadStep::Finished(Ok(upload)) = form_at(done) {
        let i = choose|i: int| #[trigger]
            reads_last_field(before, i, "password"@) && before[i] == EventView::TextRead(
                Some(upload.password),
            );
        assert(reads_last_field(before, i, "password"@) && before[i] == done[i]);
        let j = choose|i: int| #[trigger]
            reads_last_field(before, i, "file"@) && before[i] == EventView::BytesRead(
                Ok(upload.data),
            ) && before[i - 1]->filename == form.filename;
        assert(reads_last_field(before, j, "file"@) && before[j] == done[j] && before[j - 1]
            == done[j - 1]);
    }
}
impl UploadForm<String, Vec<u8>> {
    /// Begins to read a form.
    pub fn begin() -> (form: Self)
        ensures
            form@ == (FormView {
                password: None,
                filename: None,
                data: None,
                claimed: None,
                asked: UploadAsk::NextField,
            }),
    {
        UploadForm {
            password: None,
            filename: None,
            data: None,
            claimed: None,
            asked: UploadAsk::NextField,
        }
    }
}

/// The refusal of a form that cannot be read, for a reason with this status.
pub fn upload_failure(status: u16) -> (e: ApiError)
    ensures
        e@ == unreadable(status),
{
    if status == PAYLOAD_TOO_LARGE {
        ApiError::new(status, "File exceeds the configured upload limit")
    } else {
        ApiError::new(status, "Malformed upload")
    }
}

/// What a form that was read makes.
pub fn accept_upload(form: UploadForm<String, Vec<u8>>) -> (r: Result<
    Upload<String, Vec<u8>>,
    ApiError,
>)
    ensures
        match r {
            Ok(upload) => accepted(form@) == Ok::<UploadView, Refusal>(upload@),
            Err(e) => accepted(form@) == Err::<UploadView, Refusal>(e@),
        },
{
    let password = match form.password {
        Some(password) => password,
        None => return Err(ApiError::new(BAD_REQUEST, "Password is required")),
    };
    if password.as_str().unicode_len() < MIN_PASSWORD_LEN {
        return Err(ApiError::new(BAD_REQUEST, "Password must be at least 12 characters"));
    }
    if password.as_str().as_bytes().len() > MAX_PASSWORD_LEN {
        return Err(ApiError::new(BAD_REQUEST, "Password is too long"));
    }
    let data = match form.data {
        Some(data) => data,
        None => return Err(ApiError::new(BAD_REQUEST, "File is required")),
    };
    if data.len() == 0 {
        return Err(ApiError::new(BAD_REQUEST, "File is empty"));
    }
    let claimed = match form.filename {
        Some(name) => name,
        None => String::new(),
    };
    match sanitize_filename(claimed.as_str()) {
        Some(filename) => Ok(Upload { password, filename, data }),
        None => Err(ApiError::new(BAD_REQUEST, "Invalid file name")),
    }
}

/// Goes on with the reading of a form after an event.
pub fn read_upload(form: UploadForm<String, Vec<u8>>, event: UploadEvent<String, Vec<u8>>) -> (r:
    UploadStep<String, Vec<u8>, ApiError>)
    requires
        event_answers(form.asked, event@),
    ensures
        r@ == form@.after(event@),
{
    match event {
        UploadEvent::FieldBegins { name, filename } => {
            let mut form = form;
            if name == "password".to_owned() {
                form.asked = UploadAsk::ReadText;
            } else if name == "file".to_owned() {
                form.asked = UploadAsk::ReadBytes;
                form.claimed = filename;
            } else {
                form.asked = UploadAsk::Drain;
            }
            UploadStep::Reading(form)
        },
        UploadEvent::End => UploadStep::Finished(accept_upload(form)),
        UploadEvent::Failed(status) => UploadStep::Finished(Err(upload_failure(status))),
        UploadEvent::TextRead(text) => match text {
            Some(text) => {
                let mut form = form;
                form.password = Some(text);
                form.asked = UploadAsk::NextField;
                UploadStep::Reading(form)
            },
            None => UploadStep::Finished(Err(ApiError::new(BAD_REQUEST, "Malformed upload"))),
        },
        UploadEvent::BytesRead(r) => match r {
            Ok(bytes) => UploadStep::Reading(
                UploadForm {
                    password: form.password,
                    filename: form.claimed,
                    data: Some(bytes),
                    claimed: None,
                    asked: UploadAsk::NextField,
                },
            ),
            Err(status) => UploadStep::Finished(Err(upload_failure(status))),
        },
        UploadEvent::Drained => {
            let mut form = form;
            form.asked = UploadAsk::NextField;
            UploadStep::Reading(form)
        },
    }
}

/// A form that is too large is refused as such. Any other that cannot be read is
/// refused as malformed, with the status that says why.
pub proof fn law_unreadable_forms_are_refused(status: u16)
    ensures
        unreadable(status).status == status,
        status == 413 <==> unreadable(status).message
            == "File exceeds the configured upload limit"@,
        status != 413 <==> unreadable(status).message == "Malformed upload"@,
{
    reveal_strlit("File exceeds the configured upload limit");
    reveal_strlit("Malformed upload");
    assert("Malformed upload"@[0] == 'M');
}

/// A field that is no text, and a failure while the form is read, end the reading
/// with a refusal at once. The end of the form is the only other end.
pub proof fn law_reading_ends_at_a_failure(form: FormView, event: EventView, status: u16)
    ensures
        event == EventView::TextRead(None) ==> (form.after(event) matches UploadStep::Finished(
            Err(refused),
        ) && refused.status == 400 && refused.message == "Malformed upload"@),
        event == EventView::Failed(status) || event == EventView::BytesRead(Err(status)) ==> (
        form.after(event) matches UploadStep::Finished(Err(refused)) && refused.status == status
            && (refused.message == "File exceeds the configured upload limit"@ <==> status
            == 413)),
        event == EventView::End ==> form.after(event) == StepView::Finished(accepted(form)),
        event is FieldBegins || event is Drained || (event matches EventView::TextRead(Some(_)))
            || (event matches EventView::BytesRead(Ok(_))) ==> form.after(event) is Reading,
{
    law_unreadable_forms_are_refused(status);
}

} // verus!
