//! What the annotation backend answers, and how its failures are classified.
use vstd::prelude::*;

verus! {

/// An annotation returned by the backend: its identifier, used to report
/// feedback, and the markdown text.
pub struct Annotation {
    pub annotation: String,
    pub id: usize,
}

impl Annotation {
    /// A copy of the annotation.
    pub fn duplicate(&self) -> (r: Annotation)
        ensures
            r.annotation@ == self.annotation@,
            r.id == self.id,
    {
        Annotation { annotation: self.annotation.clone(), id: self.id }
    }
}

/// Failures surfaced to the reader.
#[derive(PartialEq, Eq, Structural, Clone, Copy, Debug)]
pub enum YaYaError {
    /// The backend refused the request (a 4xx status).
    ClientError,
    /// The backend failed (a 5xx status).
    ServerError,
    /// The answer did not parse as an annotation.
    IntegrationError,
    /// Anything else, including a failure without a status.
    UnknownError,
}

/// The error for a failed request with HTTP status `status`, if it had one.
pub open spec fn status_error(status: Option<u16>) -> YaYaError {
    match status {
        Some(s) => if 400 <= s < 500 {
            YaYaError::ClientError
        } else if 500 <= s < 600 {
            YaYaError::ServerError
        } else {
            YaYaError::UnknownError
        },
        None => YaYaError::UnknownError,
    }
}

impl YaYaError {
    /// Classifies a failed request by its HTTP status: 4xx is the client's
    /// error, 5xx the server's, anything else unknown.
    pub fn from_status(status: Option<u16>) -> (r: YaYaError)
        ensures
            r == status_error(status),
    {
        match status {
            Some(s) => if 400 <= s && s < 500 {
                YaYaError::ClientError
            } else if 500 <= s && s < 600 {
                YaYaError::ServerError
            } else {
                YaYaError::UnknownError
            },
            None => YaYaError::UnknownError,
        }
    }

    /// The message shown to the reader.
    pub fn message(&self) -> (r: &'static str)
        ensures
            r@ == match self {
                YaYaError::ClientError => "Что-то пошло не так. Попробуйте ещё раз."@,
                YaYaError::ServerError => "Ошибка. Попробуйте позже."@,
                YaYaError::IntegrationError => "Ошибка. Обновите расширение."@,
                YaYaError::UnknownError => "Неизвестная ошибика"@,
            },
    {
        match self {
            YaYaError::ClientError => "Что-то пошло не так. Попробуйте ещё раз.",
            YaYaError::ServerError => "Ошибка. Попробуйте позже.",
            YaYaError::IntegrationError => "Ошибка. Обновите расширение.",
            YaYaError::UnknownError => "Неизвестная ошибика",
        }
    }
}

/// The annotation slot of a trigger, copied.
pub fn copy_slot(a: &Option<Result<Annotation, YaYaError>>) -> (r: Option<Result<Annotation, YaYaError>>)
    ensures
        slot_view(r) == slot_view(*a),
{
    match a {
        None => None,
        Some(Ok(v)) => Some(Ok(v.duplicate())),
        Some(Err(e)) => Some(Err(*e)),
    }
}

/// The annotation slot as plain values.
pub open spec fn slot_view(a: Option<Result<Annotation, YaYaError>>) -> Option<Result<(Seq<char>, usize), YaYaError>> {
    match a {
        None => None,
        Some(Ok(v)) => Some(Ok((v.annotation@, v.id))),
        Some(Err(e)) => Some(Err(e)),
    }
}

} // verus!
