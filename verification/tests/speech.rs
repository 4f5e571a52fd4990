//! What is decided about transcripts.

use raflow::dictation::{
    absorb_around_newlines, collapse_same_kind, normalize_dictation_commands,
};
use raflow::guards::{
    build_rolling_prompt, is_prompt_echo, is_repetition_loop, is_safe_whisper_output,
    ROLLING_PROMPT_TERM_CAP,
};
use raflow::recognizer::{
    apple_final_has_english, rolling_session_active, should_correct_with_whisper,
};
use raflow::rolling::{
    rolling_final_flush_delivered, rolling_trailing_silence_for, segments_pending,
    segments_ready_to_finalize,
};
use raflow::whisper::{
    audio_ctx_for_samples, parse_restore_trace_flag, parse_rolling_flag, strip_committed_prefix,
};

#[test]
fn audio_ctx_for_samples_scales_with_margin_and_clamps() {
    let cases: &[(usize, i32)] = &[
        (0, 512),
        (16_000, 512),
        (100_001, 512),
        (143_360, 512),
        (160_000, 564),
        (320_000, 1_064),
        (480_000, 1_500),
        (1_000_000, 1_500),
    ];
    for (samples, expected) in cases.iter().copied() {
        assert_eq!(
            audio_ctx_for_samples(samples),
            expected,
            "audio_ctx_for_samples({samples})"
        );
    }
}

#[test]
fn segments_pending_drops_and_clips_by_sample_cutoff() {
    type Case<'a> = (&'a [(usize, usize)], usize, &'a [(usize, usize)]);
    let cases: &[Case] = &[
        (&[(0, 100), (200, 300)], 0, &[(0, 100), (200, 300)]),
        (&[(0, 100), (200, 300)], 100, &[(200, 300)]),
        (&[(0, 100), (200, 300)], 150, &[(200, 300)]),
        (&[(0, 100), (80, 300)], 100, &[(100, 300)]),
        (&[(200, 300)], 100, &[(200, 300)]),
        (&[(0, 100)], 500, &[]),
        (&[], 100, &[]),
    ];
    for (i, (segs, cutoff, expected)) in cases.iter().enumerate() {
        let segs: Vec<std::ops::Range<usize>> = segs.iter().map(|&(s, e)| s..e).collect();
        let expected: Vec<std::ops::Range<usize>> =
            expected.iter().map(|&(s, e)| s..e).collect();
        assert_eq!(
            segments_pending(&segs, *cutoff),
            expected,
            "case {i}: cutoff={cutoff}"
        );
    }
}

#[test]
fn is_repetition_loop_catches_degenerate_output() {
    let looped = [
        "我們會在一起的一段時間 開啟動了我們會在一起的一段時間 開啟動了我們會在一起的一段時間 開啟動了我們會在一起的一段時間 開啟動了",
        "所以說我們會在一起的一段時間 開啟動了我們會在一起的一段時間 開啟動了我們會在一起的一段時間 開啟動了",
        "這是測試這是測試這是測試",
        "abcdefabcdefabcdef",
        "觀看 觀看 觀看 觀看",
    ];
    let normal = [
        "",
        "正常的一句話",
        "我們公司的CI/CD工具會是使用ArgoCD",
        "好好好",
        "哈哈哈哈哈哈",
        "這是測試這是測試",
        "點點點點很常見但單元太短不算",
    ];
    for text in looped {
        assert!(is_repetition_loop(text), "should catch: {text:?}");
    }
    for text in normal {
        assert!(!is_repetition_loop(text), "false positive: {text:?}");
    }
}

#[test]
fn rolling_prompt_builds_capped_and_detects_echo() {
    let few = build_rolling_prompt(&["ArgoCD", "Terraform"]);
    for kw in ["ArgoCD", "Terraform", "逗點", "句點", "換行"] {
        assert!(few.contains(kw), "prompt 應含 {kw:?}：{few:?}");
    }
    let many: Vec<String> = (0..35).map(|i| format!("Term{i}")).collect();
    let many_refs: Vec<&str> = many.iter().map(String::as_str).collect();
    let capped = build_rolling_prompt(&many_refs);
    assert!(
        capped.contains("Term29") && !capped.contains("Term30"),
        "應截斷至 30 個術語：{capped:?}"
    );

    let terms = ["ArgoCD", "GitLab CI", "Terraform"];
    let echo_cases = [
        "ArgoCD、GitLab CI",
        "前面講到 GitLab CI、Terraform 之類的",
        "詞彙：ArgoCD",
    ];
    let normal_cases = [
        "",
        "我們用ArgoCD跟GitLab CI部署",
        "Terraform是我們的IaC工具",
        "我們公司的CI CD工具是使用GitLab CI跟ArgoCD",
    ];
    for t in echo_cases {
        assert!(is_prompt_echo(t, &terms), "應判定回吐: {t:?}");
    }
    for t in normal_cases {
        assert!(!is_prompt_echo(t, &terms), "誤判回吐: {t:?}");
    }
}

#[test]
fn rolling_trailing_silence_scales_with_pending_speech() {
    let cases: &[(usize, usize)] = &[
        (0, usize::MAX),
        (16_000, usize::MAX),
        (23_999, usize::MAX),
        (24_000, 32_000),
        (79_999, 32_000),
        (80_000, 16_000),
        (160_000, 16_000),
    ];
    for (pending, expected) in cases.iter().copied() {
        assert_eq!(
            rolling_trailing_silence_for(pending),
            expected,
            "rolling_trailing_silence_for({pending})"
        );
    }
}

#[test]
fn segments_ready_to_finalize_locks_whole_sentence_on_pause() {
    const SIL: usize = 4_800;
    type Case<'a> = (&'a [usize], usize, usize, bool, usize, usize);
    let cases: &[Case] = &[
        (&[], 16_000, 0, false, 0, 0),
        (&[14_000], 16_000, 0, false, 0, 0),
        (&[10_000], 16_000, 0, false, 0, 1),
        (&[10_000, 20_000, 28_000], 30_000, 0, false, 0, 0),
        (&[10_000, 20_000, 25_000], 30_000, 0, false, 0, 3),
        (&[10_000, 20_000, 25_000], 30_000, 2, false, 2, 3),
        (&[10_000, 28_000], 30_000, 0, true, 0, 2),
        (&[10_000], 16_000, 0, true, 0, 1),
        (&[10_000], 16_000, 5, false, 1, 1),
    ];
    for (ends, buf, finalized, is_final, exp_start, exp_end) in cases.iter().copied() {
        let r = segments_ready_to_finalize(ends, buf, finalized, SIL, is_final);
        assert_eq!(
            (r.start, r.end),
            (exp_start, exp_end),
            "segments_ready_to_finalize({ends:?}, {buf}, {finalized}, {SIL}, {is_final})"
        );
        assert!(r.start <= r.end && r.end <= ends.len(), "範圍越界: {r:?}");
    }
}

#[test]
fn rolling_final_flush_delivered_requires_lock_or_no_pending() {
    let cases: &[(bool, usize, bool)] = &[
        (true, 0, true),
        (true, 16_000, true),
        (false, 0, true),
        (false, 1, false),
        (false, 48_000, false),
    ];
    for (locked, pending, expected) in cases.iter().copied() {
        assert_eq!(
            rolling_final_flush_delivered(locked, pending),
            expected,
            "rolling_final_flush_delivered({locked}, {pending})"
        );
    }
}

#[test]
fn parse_rolling_flag_defaults_on_and_recognizes_off_values() {
    let cases: &[(Option<&str>, bool)] = &[
        (None, true),
        (Some(""), false),
        (Some("   "), false),
        (Some("0"), false),
        (Some("false"), false),
        (Some("False"), false),
        (Some("FALSE"), false),
        (Some("1"), true),
        (Some("true"), true),
        (Some("on"), true),
        (Some("yes"), true),
        (Some(" 1 "), true),
        (Some("false-ish"), true),
    ];
    for (input, expected) in cases.iter().copied() {
        assert_eq!(
            parse_rolling_flag(input),
            expected,
            "parse_rolling_flag({input:?})"
        );
    }
}

#[test]
fn strip_committed_prefix_trims_locked_chars() {
    let cases: &[(&str, usize, &str)] = &[
        ("你好世界", 0, "你好世界"),
        ("你好世界", 2, "世界"),
        ("你好世界", 4, ""),
        ("你好世界", 10, ""),
        ("hello world", 6, "world"),
        ("", 3, ""),
        ("a你b", 1, "你b"),
    ];
    for (cumulative, committed, expected) in cases.iter().copied() {
        assert_eq!(
            strip_committed_prefix(cumulative, committed),
            expected,
            "strip_committed_prefix({cumulative:?}, {committed})"
        );
    }
}

#[test]
fn no_command_word_is_left_after_normalising() {
    let words = ["逗點", "聚號", "問號", "驚嘆號", "冒號", "份號", "頓號", "新一行", "換航"];
    for first in words {
        for second in words {
            for gap in ["", " ", "，", " 。 ", "字"] {
                let said = format!("前{first}{gap}{second} 後");
                let out = normalize_dictation_commands(&said);
                for word in words {
                    assert!(!out.contains(word), "{said:?} → {out:?}");
                }
            }
        }
    }
}

#[test]
fn no_space_is_left_beside_a_commanded_line_break() {
    for (input, expected) in [
        ("一 換行 二", "一\n二"),
        ("一  換行  。  二", "一\n二"),
        ("一 逗點 換行 新行 二", "一，\n\n二"),
        ("換行 ， 換行", "\n\n"),
    ] {
        let out = normalize_dictation_commands(input);
        assert_eq!(out, expected, "{input:?}");
        assert!(!out.contains(" \n") && !out.contains("\n "));
    }
}

#[test]
fn no_repeated_mark_is_left_after_normalising() {
    for (input, expected) in [
        ("你好， 逗點", "你好，"),
        ("你好, 逗點", "你好，"),
        ("你好 , 逗點", "你好，"),
        ("a, , 逗點b", "a，b"),
        ("好。 句點 換行", "好。\n"),
        ("逗點 逗點", "，"),
    ] {
        assert_eq!(normalize_dictation_commands(input), expected, "{input:?}");
    }
}

#[test]
fn normalize_dictation_commands_handles_all_patterns() {
    let cases: &[(&str, &str)] = &[
        ("逗點", "，"),
        ("句點", "。"),
        ("問號", "？"),
        ("驚嘆號", "！"),
        ("換行", "\n"),
        ("好，讓我們繼續下去,逗點", "好，讓我們繼續下去，"),
        ("你好,逗點", "你好，"),
        ("結束.句號", "結束。"),
        ("為什麼?問號", "為什麼？"),
        ("快點!驚嘆號", "快點！"),
        ("a，逗點，b", "a，b"),
        ("這裡，鬥點，那裡", "這裡，那裡"),
        ("命令是鬥點", "命令是，"),
        ("命令是聚點", "命令是。"),
        ("段落緩行下一段", "段落\n下一段"),
        ("逗典", "，"),
        ("兜點", "，"),
        ("荒航", "\n"),
        ("是我們的CI，逗典 荒航", "是我們的CI，\n"),
        ("逗點換行", "，\n"),
        ("逗點 換行", "，\n"),
        ("第一段，換行，第二段", "第一段，\n第二段"),
        ("第一段換行第二段", "第一段\n第二段"),
        ("第一段 換行 第二段", "第一段\n第二段"),
        ("。換行。", "\n"),
        ("Teraphone ， 換航", "Teraphone，\n"),
        ("11CI換航另外", "11CI\n另外"),
        ("「鬥點，聚點，換行。」", "「，。\n」"),
        ("第一句,逗點第二句.句點", "第一句，第二句。"),
        ("a,，b", "a，b"),
        ("a，,b", "a，b"),
        ("a,,,b", "a，b"),
        ("", ""),
        ("   ", "   "),
        ("純文字無命令字", "純文字無命令字"),
    ];
    for (input, expected) in cases {
        let actual = normalize_dictation_commands(input);
        assert_eq!(
            actual, *expected,
            "normalize({input:?}) → {actual:?} ≠ {expected:?}"
        );
    }
}

#[test]
fn is_safe_whisper_output_allows_chinese_english_only() {
    let allow = [
        "",
        "Hello world.",
        "我打開 Cursor 跑 npm install",
        "繁體中文逐字稿。",
        "句號、頓號、引號「」都該允許",
        "ABC 123 你好 .,!?",
        "全形　空白都OK",
    ];
    let block = [
        "안녕하세요 你好",
        "我打開 안녕",
        "こんにちは",
        "我說了 さようなら",
        "カタカナ",
        "Привет",
        "مرحبا",
    ];
    for s in allow {
        assert!(is_safe_whisper_output(s), "should ALLOW: {s:?}");
    }
    for s in block {
        assert!(!is_safe_whisper_output(s), "should BLOCK: {s:?}");
    }
}

#[test]
fn parse_restore_trace_flag_defaults_off_and_opts_in() {
    for v in [
        Some("1"),
        Some("true"),
        Some("TRUE"),
        Some(" yes "),
        Some("on"),
        Some("On"),
    ] {
        assert!(parse_restore_trace_flag(v), "應為 ON：{v:?}");
    }
    for v in [
        None,
        Some(""),
        Some("   "),
        Some("0"),
        Some("false"),
        Some("no"),
        Some("off"),
        Some("2"),
        Some("garbage"),
    ] {
        assert!(
            !parse_restore_trace_flag(v),
            "應為 OFF（預設不輸出口述全文）：{v:?}"
        );
    }
}

#[test]
fn apple_final_has_english_detects_ascii_letters_only() {
    let cases: &[(&str, bool)] = &[
        ("你好世界", false),
        ("我們去吃飯吧", false),
        ("好，讓我們繼續下去", false),
        ("我用 Cursor 開啟", true),
        ("npm install 已完成", true),
        ("Hello 世界", true),
        ("Hello world", true),
        ("a", true),
        ("123 456", false),
        ("！？，。", false),
        ("我有 100 個", false),
        ("", false),
        ("   ", false),
    ];
    for (input, expected) in cases {
        assert_eq!(
            apple_final_has_english(input),
            *expected,
            "apple_final_has_english({input:?}) ≠ {expected}"
        );
    }
}

#[test]
fn rolling_session_active_requires_zh_tw_and_vad() {
    let cases: &[(bool, bool, &str, bool)] = &[
        (true, true, "zh-TW", true),
        (true, true, "en-US", false),
        (true, true, "ja-JP", false),
        (true, false, "zh-TW", false),
        (false, true, "zh-TW", false),
        (false, false, "en-US", false),
    ];
    for (capable, vad_ready, locale, expected) in cases.iter().copied() {
        assert_eq!(
            rolling_session_active(capable, vad_ready, locale),
            expected,
            "rolling_session_active({capable}, {vad_ready}, {locale:?})"
        );
    }
}

#[test]
fn should_correct_with_whisper_only_for_zh_session_with_english() {
    let cases: &[(&str, &str, bool, &str)] = &[
        (
            "zh-TW",
            "我用 Cursor 開啟",
            true,
            "zh session + english → correct",
        ),
        (
            "zh-TW",
            "你好世界",
            false,
            "zh session + pure chinese → skip",
        ),
        (
            "zh-TW",
            "npm install 完成",
            true,
            "zh session + mixed → correct",
        ),
        (
            "en-US",
            "open this project with cursor",
            false,
            "en session english → skip",
        ),
        ("en-US", "Hello world", false, "en session → skip"),
        ("en-US", "", false, "en session empty → skip"),
        ("ja-JP", "こんにちは test", false, "other locale → skip"),
    ];
    for (locale, text, expected, label) in cases {
        assert_eq!(
            should_correct_with_whisper(locale, text),
            *expected,
            "{label}: locale={locale} text={text:?}"
        );
    }
}

#[test]
fn marks_do_not_pile_up() {
    let collapse = |s: &str| {
        let chars: Vec<char> = s.chars().collect();
        collapse_same_kind(&chars).into_iter().collect::<String>()
    };
    for s in ["a,,,b", "，,，", "！!?？", "好。。。"] {
        let once = collapse(s);
        assert_eq!(collapse(&once), once);
    }
    let absorb = |s: &str| {
        let chars: Vec<char> = s.chars().collect();
        absorb_around_newlines(&chars).into_iter().collect::<String>()
    };
    assert_eq!(absorb("甲乙"), "甲乙");
    assert_eq!(normalize_dictation_commands("已經，乾淨。"), "已經，乾淨。");
}

#[test]
fn the_prompt_is_noticed_when_it_comes_back() {
    let terms = ["ArgoCD", "Terraform"];
    assert!(is_prompt_echo(&build_rolling_prompt(&terms), &terms));
    assert_eq!(ROLLING_PROMPT_TERM_CAP, 30);
}
