//! Checks on what a request brings: the size of uploads and forms, the size of a
//! template, and where the constructor saves a template.
use vstd::prelude::*;
use crate::error::{owned, AppError, ErrorKind};
use crate::names::{docx_suffix, file_part_of, with_docx_suffix, ensure_docx_name, folder_verdict, msg_bad_folder, msg_invalid_file_name, validate_folder_name};
use crate::text::{chars_of, ends_with, trim, trim_chars};

verus! {

/// The largest upload, form or template accepted, in bytes (20 MiB).
pub const MAX_FILE_SIZE: usize = 20 * 1024 * 1024;

/// Counts the bytes of a chunk of an upload or a form: the new total, or a refusal
/// (payload too large, with `message`) once the total passes `MAX_FILE_SIZE`.
pub fn add_upload_bytes(total: usize, chunk_len: usize, message: &str) -> (r: Result<usize, AppError>)
    ensures
        total + chunk_len <= MAX_FILE_SIZE ==> r == Ok::<usize, AppError>((total + chunk_len) as usize),
        total + chunk_len > MAX_FILE_SIZE ==> (r matches Err(e) && e.is(ErrorKind::PayloadTooLarge, message@)),
{
    if chunk_len > MAX_FILE_SIZE || total > MAX_FILE_SIZE - chunk_len {
        Err(AppError::PayloadTooLarge(owned(message)))
    } else {
        Ok(total + chunk_len)
    }
}

/// The message for a template that is too large.
pub open spec fn msg_file_too_large() -> Seq<char> {
    "Файл слишком большой"@
}

/// Refuses a template larger than `MAX_FILE_SIZE` bytes.
pub fn check_template_size(size: u64) -> (r: Result<(), String>)
    ensures
        size <= MAX_FILE_SIZE ==> r is Ok,
        size > MAX_FILE_SIZE ==> (r matches Err(m) && m@ == msg_file_too_large()),
{
    if size > MAX_FILE_SIZE as u64 {
        Err(owned("Файл слишком большой"))
    } else {
        Ok(())
    }
}

/// The message for a template saved without a name.
pub open spec fn msg_empty_template_name() -> Seq<char> {
    "Имя шаблона не может быть пустым"@
}

/// Where the constructor saves a template, given what naming the file gave: a refused
/// name is passed on; for an accepted name `n`, `Ok((n, folder))` when the folder is
/// accepted (see `folder_verdict`), else the bad-folder error.
pub fn save_target_from(name: Result<String, AppError>, target_folder: &str) -> (r: Result<
    (String, Option<String>),
    AppError,
>)
    ensures
        match name {
            Err(e) => r == Err::<(String, Option<String>), AppError>(e),
            Ok(n) => match folder_verdict(target_folder@) {
                Some(f) => r matches Ok((n2, f2)) && n2 == n && match f2 {
                    Some(x) => f == Some(x@),
                    None => f == None::<Seq<char>>,
                },
                None => r matches Err(e) && e.is(ErrorKind::BadRequest, msg_bad_folder()),
            },
        },
{
    let n = name?;
    let folder = validate_folder_name(target_folder)?;
    Ok((n, folder))
}

/// Where the constructor saves a template: a blank name is refused; otherwise the
/// file name (see `ensure_docx_name`) and the folder (see `save_target_from`).
pub fn constructor_save_target(template_name: &str, target_folder: &str) -> (r: Result<
    (String, Option<String>),
    AppError,
>)
    ensures
        trim(template_name@).len() == 0 ==> (r matches Err(e) && e.is(ErrorKind::BadRequest, msg_empty_template_name())),
        folder_verdict(target_folder@) is None ==> r is Err,
        r matches Ok((n, f)) ==> {
            &&& trim(template_name@).len() > 0
            &&& n@.len() > 0 && !n@.contains('\0') && !n@.contains('/') && ends_with(n@, docx_suffix())
            &&& exists|b: Seq<char>| file_part_of(b, template_name@) && n@ == with_docx_suffix(b)
            &&& folder_verdict(target_folder@) == Some(
                match f {
                    Some(x) => Some(x@),
                    None => None,
                },
            )
        },
        trim(template_name@).len() > 0 ==> (r matches Err(e) ==> e.is(ErrorKind::BadRequest, msg_invalid_file_name()) || (
        folder_verdict(target_folder@) is None && e.is(ErrorKind::BadRequest, msg_bad_folder()))),
{
    let cs = chars_of(template_name);
    let t = trim_chars(cs.as_slice());
    if t.len() == 0 {
        return Err(AppError::BadRequest(owned("Имя шаблона не может быть пустым")));
    }
    save_target_from(ensure_docx_name(template_name), target_folder)
}

/// What the constructor does for a request.
#[derive(Debug, Clone, PartialEq, Eq)]
pub enum ConstructorStep {
    /// Show the uploaded document for choosing fields.
    Preview,
    /// Save the uploaded document as a template with its fields.
    Save,
}

/// The message when the preview is asked for without an upload.
pub open spec fn msg_not_uploaded() -> Seq<char> {
    "Файл не загружен"@
}

/// The message when saving is asked for without an upload.
pub open spec fn msg_temp_missing() -> Seq<char> {
    "Временный файл шаблона не найден"@
}

/// The message for an unknown action.
pub open spec fn msg_unknown_action() -> Seq<char> {
    "Неизвестное действие"@
}

/// Decides the constructor's step from the requested action and whether an uploaded
/// document is waiting: `upload` previews and `save` saves, each only with an upload;
/// any other action is refused.
pub fn constructor_step(action: Option<&str>, uploaded: bool) -> (r: Result<ConstructorStep, AppError>)
    ensures
        match action {
            Some(a) if a@ == "upload"@ => if uploaded {
                r == Ok::<ConstructorStep, AppError>(ConstructorStep::Preview)
            } else {
                r matches Err(e) && e.is(ErrorKind::BadRequest, msg_not_uploaded())
            },
            Some(a) if a@ == "save"@ => if uploaded {
                r == Ok::<ConstructorStep, AppError>(ConstructorStep::Save)
            } else {
                r matches Err(e) && e.is(ErrorKind::BadRequest, msg_temp_missing())
            },
            _ => r matches Err(e) && e.is(ErrorKind::BadRequest, msg_unknown_action()),
        },
{
    let (is_upload, is_save) = match action {
        Some(a) => {
            let cs = chars_of(a);
            let up = chars_of("upload");
            let sv = chars_of("save");
            (crate::text::eq_chars(cs.as_slice(), up.as_slice()), crate::text::eq_chars(cs.as_slice(), sv.as_slice()))
        },
        None => (false, false),
    };
    if is_upload {
        if uploaded {
            Ok(ConstructorStep::Preview)
        } else {
            Err(AppError::BadRequest(owned("Файл не загружен")))
        }
    } else if is_save {
        if uploaded {
            Ok(ConstructorStep::Save)
        } else {
            Err(AppError::BadRequest(owned("Временный файл шаблона не найден")))
        }
    } else {
        Err(AppError::BadRequest(owned("Неизвестное действие")))
    }
}

/// The name of a filled document: the template's file stem (`filled` when it has
/// none), a hyphen, the time stamp, and `.docx`.
pub open spec fn saved_name(stem: Option<Seq<char>>, stamp: Seq<char>) -> Seq<char> {
    let base = match stem {
        Some(s) => s,
        None => "filled"@,
    };
    base + "-"@ + stamp + ".docx"@
}

/// Names a filled document (see `saved_name`).
pub fn saved_file_name(stem: Option<&str>, stamp: &str) -> (r: String)
    ensures
        r@ == saved_name(
            match stem {
                Some(s) => Some(s@),
                None => None,
            },
            stamp@,
        ),
{
    let mut out = match stem {
        Some(s) => chars_of(s),
        None => chars_of("filled"),
    };
    crate::text::append_str(&mut out, "-");
    crate::text::append_str(&mut out, stamp);
    crate::text::append_str(&mut out, ".docx");
    crate::text::string_from_chars(out.as_slice())
}

} // verus!
