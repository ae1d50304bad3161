//! Errors shown to the user in a dialog (never a crash of a worker thread).

use vstd::prelude::*;

verus! {

/// A user-visible error; `message` gives the text the dialog shows.
#[derive(Debug)]
pub enum Error {
    Message(String),
    PdfiumMissing { lib: String },
    PdfiumLoad { path: String, detail: String },
    PdfOpen(String),
    Project(String),
    ImageOpen { path: String, detail: String },
    Export(String),
}

/// The dialog text of an error.
pub open spec fn error_text(e: Error) -> Seq<char> {
    match e {
        Error::Message(s) => s@,
        Error::PdfiumMissing { lib } => "找不到 "@ + lib@
            + " — 请把它放在程序同目录下, 或加入系统 PATH, 也可设置环境变量 PDFIUM_DYNAMIC_LIB_PATH 指定路径."@,
        Error::PdfiumLoad { path, detail } => "无法加载 pdfium ("@ + path@ + "): "@ + detail@,
        Error::PdfOpen(s) => "打开 PDF 失败: "@ + s@,
        Error::Project(s) => s@,
        Error::ImageOpen { path, detail } => "无法打开图片 ("@ + path@ + "): "@ + detail@,
        Error::Export(s) => s@,
    }
}

impl Error {
    /// A plain message.
    pub fn msg(s: String) -> (e: Self)
        ensures
            e == Error::Message(s),
    {
        Error::Message(s)
    }

    /// A project open/save failure.
    pub fn project(s: String) -> (e: Self)
        ensures
            e == Error::Project(s),
    {
        Error::Project(s)
    }

    /// An image that could not be opened, with the decoder's message.
    pub fn image_open(path: String, detail: String) -> (e: Self)
        ensures
            e == (Error::ImageOpen { path, detail }),
    {
        Error::ImageOpen { path, detail }
    }

    /// An export failure.
    pub fn export(s: String) -> (e: Self)
        ensures
            e == Error::Export(s),
    {
        Error::Export(s)
    }

    /// The text the error dialog shows.
    pub fn message(&self) -> (t: String)
        ensures
            t@ == error_text(*self),
    {
        match self {
            Error::Message(s) => s.clone(),
            Error::PdfiumMissing { lib } => {
                let mut t = String::from_str("找不到 ");
                t.append(lib.as_str());
                t.append(" — 请把它放在程序同目录下, 或加入系统 PATH, 也可设置环境变量 PDFIUM_DYNAMIC_LIB_PATH 指定路径.");
                t
            },
            Error::PdfiumLoad { path, detail } => {
                let mut t = String::from_str("无法加载 pdfium (");
                t.append(path.as_str());
                t.append("): ");
                t.append(detail.as_str());
                t
            },
            Error::PdfOpen(s) => {
                let mut t = String::from_str("打开 PDF 失败: ");
                t.append(s.as_str());
                t
            },
            Error::Project(s) => s.clone(),
            Error::ImageOpen { path, detail } => {
                let mut t = String::from_str("无法打开图片 (");
                t.append(path.as_str());
                t.append("): ");
                t.append(detail.as_str());
                t
            },
            Error::Export(s) => s.clone(),
        }
    }
}

}
