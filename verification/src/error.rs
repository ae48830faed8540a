//! Error values of the library.

use vstd::prelude::*;
use vstd::string::*;

verus! {

/// What can be wrong with the provider document.
#[derive(Debug)]
pub enum ConfigError {
    InvalidStructure(String),
    MissingField(String),
    DuplicateName(String),
}

impl ConfigError {
    /// The text shown to the user: what went wrong, then the detail.
    pub open spec fn message_text(&self) -> Seq<char> {
        match self {
            ConfigError::InvalidStructure(s) => "无效的配置结构: "@ + s@,
            ConfigError::MissingField(s) => "缺少必要字段: "@ + s@,
            ConfigError::DuplicateName(s) => "重复的配置名称: "@ + s@,
        }
    }

    pub fn message(&self) -> (text: String)
        ensures
            text@ == self.message_text(),
    {
        match self {
            ConfigError::InvalidStructure(s) => labelled("无效的配置结构: ", s),
            ConfigError::MissingField(s) => labelled("缺少必要字段: ", s),
            ConfigError::DuplicateName(s) => labelled("重复的配置名称: ", s),
        }
    }
}

/// What can be wrong with a path.
#[derive(Debug)]
pub enum IoError {
    PathNotFound(String),
    PermissionDenied(String),
}

impl IoError {
    /// The text shown to the user: what went wrong, then the path.
    pub open spec fn message_text(&self) -> Seq<char> {
        match self {
            IoError::PathNotFound(s) => "路径不存在: "@ + s@,
            IoError::PermissionDenied(s) => "权限不足: "@ + s@,
        }
    }

    pub fn message(&self) -> (text: String)
        ensures
            text@ == self.message_text(),
    {
        match self {
            IoError::PathNotFound(s) => labelled("路径不存在: ", s),
            IoError::PermissionDenied(s) => labelled("权限不足: ", s),
        }
    }
}

/// What can be wrong with JSON text.
#[derive(Debug)]
pub enum JsonError {
    ParseError(String),
}

impl JsonError {
    /// The text shown to the user: what went wrong, then the detail.
    pub open spec fn message_text(&self) -> Seq<char> {
        match self {
            JsonError::ParseError(s) => "JSON 解析错误: "@ + s@,
        }
    }

    pub fn message(&self) -> (text: String)
        ensures
            text@ == self.message_text(),
    {
        match self {
            JsonError::ParseError(s) => labelled("JSON 解析错误: ", s),
        }
    }
}

/// Why an operation of the library did not produce its result.
#[derive(Debug)]
pub enum AppError {
    /// The platform names no home directory for the user.
    HomeDirUnavailable,
    /// The path of the user's home directory is not text, and the paths of
    /// this library are.
    HomeDirNotText,
    /// A provider's settings could not be written as JSON.
    Serialization,
    /// No settings file is materialised for the name.
    NotFound { name: String, path: String },
    /// The provider database is not where it is expected.
    DatabaseMissing { path: String },
}

pub type AppResult<T> = Result<T, AppError>;

fn labelled(label: &str, detail: &String) -> (text: String)
    ensures
        text@ == label@ + detail@,
{
    let mut text = String::from_str(label);
    text.append(detail.as_str());
    text
}

} // verus!
