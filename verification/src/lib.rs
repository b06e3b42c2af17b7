//! CodeForge core: commit message templates, project sync comparison, the
//! sandboxed view of the file system, and the requests that push a project to
//! GitHub. Everything here is pure; the `app` crate performs the I/O.

pub mod blob_content;
pub mod blob_laws;
pub mod blob_sha;
pub mod comment_laws;
pub mod comments;
pub mod commit_template;
pub mod disk_laws;
pub mod fs_path;
pub mod fs_sandbox;
pub mod github_api;
pub mod model_laws;
pub mod path_laws;
pub mod path_map;
pub mod request_laws;
pub mod resolution_laws;
pub mod sandbox_laws;
pub mod sync_engine;
pub mod sync_laws;
pub mod template_laws;
pub mod text;
pub mod text_laws;
pub mod time_laws;
pub mod upload;
pub mod upload_laws;
