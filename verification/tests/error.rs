use score_sync::error::Error;

#[test]
fn messages() {
    assert_eq!(Error::msg("请先打开图片.".to_string()).message(), "请先打开图片.");
    assert_eq!(Error::project("坏工程".to_string()).message(), "坏工程");
    assert_eq!(Error::export("没有可导出的内容.".to_string()).message(), "没有可导出的内容.");
    assert_eq!(
        Error::image_open("a.png".to_string(), "bad header".to_string()).message(),
        "无法打开图片 (a.png): bad header"
    );
    assert_eq!(Error::PdfOpen("x.pdf".to_string()).message(), "打开 PDF 失败: x.pdf");
    assert_eq!(
        Error::PdfiumLoad { path: "p.dll".to_string(), detail: "no".to_string() }.message(),
        "无法加载 pdfium (p.dll): no"
    );
    assert_eq!(
        Error::PdfiumMissing { lib: "pdfium.dll".to_string() }.message(),
        "找不到 pdfium.dll — 请把它放在程序同目录下, 或加入系统 PATH, 也可设置环境变量 PDFIUM_DYNAMIC_LIB_PATH 指定路径."
    );
}
