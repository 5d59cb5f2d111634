//! The answers to the requests that the transport routes to the catalog.

use crate::catalog::EntryView;
use crate::comic::Comic;
use crate::error::ComicError;
use crate::folder::{comic_views, Folder};
use crate::response::{BinaryResponse, BinaryResponseView, ContentType, Status};
use crate::service::{all_comics, matching, resolve, ComicService};
use vstd::prelude::*;

verus! {

/// The settings that the server was started with.
#[derive(Debug)]
pub struct AppConfig {
    pub comics_dir: String,
    pub server_password: Option<String>,
}

/// The answer to the question whether the server wants a password.
#[derive(Clone, Copy, Debug, PartialEq, Eq, Structural)]
pub struct AuthCheck {
    pub requires_password: bool,
}

/// Says whether the server wants a password.
pub fn check_auth(config: &AppConfig) -> (r: AuthCheck)
    ensures
        r.requires_password == config.server_password is Some,
{
    AuthCheck { requires_password: config.server_password.is_some() }
}

/// The answer to `OPTIONS` on the password question.
pub fn auth_check_options() -> (s: Status)
    ensures
        s == Status::NoContent,
{
    Status::NoContent
}

/// The answer to `OPTIONS` on the list of comics.
pub fn comics_options() -> (s: Status)
    ensures
        s == Status::NoContent,
{
    Status::NoContent
}

/// The answer to `OPTIONS` on a cover.
pub fn cover_options(_id: String) -> (s: Status)
    ensures
        s == Status::NoContent,
{
    Status::NoContent
}

/// The answer to `OPTIONS` on a comic.
pub fn comic_options(_id: String) -> (s: Status)
    ensures
        s == Status::NoContent,
{
    Status::NoContent
}

/// The answer to `OPTIONS` on the folder tree.
pub fn folders_options() -> (s: Status)
    ensures
        s == Status::NoContent,
{
    Status::NoContent
}

/// The comics to list: those that the search matches, or all of them where
/// nothing is searched for.
pub fn list_comics(service: &ComicService, search: Option<&str>) -> (r: Vec<Comic>)
    ensures
        comic_views(r@) == match search {
            Some(query) => matching(service@.entries, query@),
            None => all_comics(service@.entries),
        },
{
    match search {
        Some(query) => service.search_comics(query),
        None => service.get_all_comics(),
    }
}

/// The folder tree to show.
pub fn get_folder_structure(service: &ComicService) -> (r: Folder)
    ensures
        r@ == service@.root,
{
    service.get_folder_structure()
}

/// The status that tells the client of a failure.
pub open spec fn status_of(e: ComicError) -> Status {
    if e == ComicError::ComicNotFound {
        Status::NotFound
    } else {
        Status::InternalServerError
    }
}

/// The status that tells the client of a failure.
pub fn status_for(e: ComicError) -> (s: Status)
    ensures
        s == status_of(e),
{
    match e {
        ComicError::ComicNotFound => Status::NotFound,
        _ => Status::InternalServerError,
    }
}

/// The answer to a request for a comic's file, given what reading the file
/// came to.
pub open spec fn comic_answer(
    entries: Seq<EntryView>,
    id: Seq<char>,
    data: Result<Seq<u8>, ComicError>,
) -> Result<BinaryResponseView, Status> {
    match data {
        Err(e) => Err(status_of(e)),
        Ok(bytes) => match resolve(entries, id) {
            None => Err(Status::NotFound),
            Some(i) => Ok(
                BinaryResponseView {
                    data: bytes,
                    content_type: ContentType::Zip,
                    filename: Some(entries[i].comic.file_name),
                },
            ),
        },
    }
}

/// What reading a file came to, as mathematical values.
pub open spec fn data_view(data: Result<Vec<u8>, ComicError>) -> Result<Seq<u8>, ComicError> {
    match data {
        Ok(bytes) => Ok(bytes@),
        Err(e) => Err(e),
    }
}

/// Answers a request for a comic's file, given what reading the file came
/// to: the bytes as a zip archive under the comic's file name, or the status
/// of the failure.
pub fn get_comic(service: &ComicService, id: &str, data: Result<Vec<u8>, ComicError>) -> (r:
    Result<BinaryResponse, Status>)
    ensures
        match r {
            Ok(response) => comic_answer(service@.entries, id@, data_view(data)) == Ok::<
                BinaryResponseView,
                Status,
            >(response@),
            Err(s) => comic_answer(service@.entries, id@, data_view(data)) == Err::<
                BinaryResponseView,
                Status,
            >(s),
        },
{
    let bytes = match data {
        Ok(bytes) => bytes,
        Err(e) => {
            return Err(status_for(e));
        },
    };
    match service.get_comic(id) {
        None => Err(Status::NotFound),
        Some(comic) => Ok(
            BinaryResponse {
                data: bytes,
                content_type: ContentType::Zip,
                filename: Some(comic.file_name),
            },
        ),
    }
}

/// Answers a request for a cover: the image of the comic that the
/// identifier resolves to, or `NotFound` where it resolves to none.
pub fn get_cover(service: &ComicService, id: &str) -> (r: Result<BinaryResponse, Status>)
    ensures
        match r {
            Ok(response) => resolve(service@.entries, id@) matches Some(i) && response@ == (
                BinaryResponseView {
                    data: service@.entries[i].cover,
                    content_type: ContentType::Jpeg,
                    filename: None,
                }),
            Err(s) => resolve(service@.entries, id@) is None && s == Status::NotFound,
        },
{
    match service.get_cover(id) {
        None => Err(Status::NotFound),
        Some(cover) => Ok(
            BinaryResponse { data: cover.data, content_type: ContentType::Jpeg, filename: None },
        ),
    }
}

} // verus!
