//! Traditional Chinese, with the wording of Taiwan.

use raflow::traditional::Traditional;

#[test]
fn opencc_s2twp_converts_to_taiwan_traditional() {
    let cc = Traditional::load();
    assert!(cc.loaded());
    let cases = [
        ("测试一下中文", "測試一下中文"),
        ("软件", "軟體"),
        ("程序", "程式"),
        ("请使用 Cursor", "請使用 Cursor"),
    ];
    for (s, t) in cases {
        assert_eq!(cc.to_traditional(s), t, "S2TWP({s:?})");
    }
}

#[test]
fn without_a_converter_text_stays_as_it_is() {
    let none = Traditional::none();
    assert!(!none.loaded());
    assert_eq!(none.to_traditional("软件 ok"), "软件 ok");
}
