use proxima::benchmark::{agreement, find, format_cuda_version, median, model_name, name_length};
use proxima::calendar::{civil_from_days, utc_timestamp};
use proxima::json::{jarray, jbool, jint, jobj, jopt, jstr};
use proxima::report::{build_json, Figures, Gpu, Origin, Workload};

#[test]
fn days_have_dates() {
    assert_eq!(civil_from_days(0), (1970, 1, 1));
    assert_eq!(civil_from_days(-1), (1969, 12, 31));
    assert_eq!(civil_from_days(11_016), (2000, 2, 29));
    assert_eq!(civil_from_days(11_017), (2000, 3, 1));
    assert_eq!(civil_from_days(47_541), (2100, 3, 1));
    assert_eq!(civil_from_days(-719_468), (0, 3, 1));
    assert_eq!(civil_from_days(-719_469), (0, 2, 29));
}

#[test]
fn every_day_follows_the_one_before() {
    let (mut y, mut m, mut d) = civil_from_days(-800_000);
    for day in -799_999..800_000 {
        let (y2, m2, d2) = civil_from_days(day);
        if d2 != 1 {
            assert_eq!((y2, m2, d2), (y, m, d + 1));
        } else if m2 != 1 {
            assert_eq!((y2, m2), (y, m + 1));
        } else {
            assert_eq!((y2, m, d), (y + 1, 12, 31));
        }
        (y, m, d) = (y2, m2, d2);
    }
}

#[test]
fn seconds_have_timestamps() {
    assert_eq!(utc_timestamp(0), "1970-01-01T00:00:00Z");
    assert_eq!(utc_timestamp(951_868_799), "2000-02-29T23:59:59Z");
    assert_eq!(utc_timestamp(1_700_000_000), "2023-11-14T22:13:20Z");
    assert_eq!(utc_timestamp(253_402_300_800), "10000-01-01T00:00:00Z");
}

#[test]
fn strings_are_escaped() {
    assert_eq!(jstr("plain"), "\"plain\"");
    assert_eq!(jstr("a\"b\\c\nd\re\tf"), "\"a\\\"b\\\\c\\nd\\re\\tf\"");
    assert_eq!(jstr("\u{0}\u{1f}\u{7f}"), "\"\\u0000\\u001f\u{7f}\"");
    assert_eq!(jstr("größe 🔎"), "\"größe 🔎\"");
    assert_eq!(jstr(""), "\"\"");
}

#[test]
fn values_may_be_null() {
    assert_eq!(jopt(Some("x")), "\"x\"");
    assert_eq!(jopt(None), "null");
    assert_eq!(jint(Some(-9_223_372_036_854_775_808)), "-9223372036854775808");
    assert_eq!(jint(Some(0)), "0");
    assert_eq!(jint(Some(1_234_567_890)), "1234567890");
    assert_eq!(jint(None), "null");
    assert_eq!(jbool(Some(true)), "true");
    assert_eq!(jbool(Some(false)), "false");
    assert_eq!(jbool(None), "null");
}

#[test]
fn lists_and_objects_are_laid_out() {
    assert_eq!(jarray(&[]), "[]");
    assert_eq!(jarray(&["a".to_string()]), "[\"a\"]");
    assert_eq!(jarray(&["a".to_string(), "b".to_string()]), "[\"a\", \"b\"]");
    assert_eq!(jobj(0, &[]), "{\n\n}");
    assert_eq!(
        jobj(2, &[("a", "1".to_string()), ("b", "null".to_string())]),
        "{\n    \"a\": 1,\n    \"b\": null\n  }"
    );
}

#[test]
fn the_report_is_laid_out() {
    let origin = Origin {
        timestamp: "1970-01-01T00:00:00Z".to_string(),
        hostname: None,
        argv: vec!["gpu_knn".to_string(), "10".to_string()],
        cwd: Some("/tmp".to_string()),
        system: "linux".to_string(),
        machine: "x86_64".to_string(),
        cpu: "a \"fast\" one".to_string(),
        cores: 16,
        sha: None,
        branch: Some("main".to_string()),
        changes: Some(String::new()),
        rustc: None,
    };
    let gpu = Gpu {
        index: 0,
        count: Some(1),
        name: Some("card".to_string()),
        compute_capability: Some("12.0".to_string()),
        driver_version: Some(format_cuda_version(12_080)),
        runtime_version: None,
        total_vram_bytes: Some(12_345),
    };
    let figures = Figures {
        cpu_1t_seconds: "1".to_string(),
        cpu_1t_qps: "2".to_string(),
        cpu_mt_seconds: "3".to_string(),
        cpu_mt_qps: "4".to_string(),
        gpu_seconds: "5".to_string(),
        gpu_qps: "6".to_string(),
        speedup_vs_cpu_1t: "7".to_string(),
        speedup_vs_cpu_mt: "8".to_string(),
        topk_agreement: "null".to_string(),
    };
    let expected = "{\n  \"schema_version\": 1,\n  \"provenance\": {\n    \"timestamp_utc\": \
        \"1970-01-01T00:00:00Z\",\n    \"hostname\": null,\n    \"argv\": [\"gpu_knn\", \"10\"],\n    \
        \"cwd\": \"/tmp\",\n    \"os\": {\n      \"system\": \"linux\",\n      \"machine\": \"x86_64\"\n    \
        },\n    \"cpu\": {\n      \"model\": \"a \\\"fast\\\" one\",\n      \"cores_logical\": 16\n    },\n    \
        \"gpu\": {\n      \"device_index\": 0,\n      \"device_count\": 1,\n      \"name\": \"card\",\n      \
        \"compute_capability\": \"12.0\",\n      \"cuda_driver_version\": \"12.8\",\n      \
        \"cuda_runtime_version\": null,\n      \"total_vram_bytes\": 12345\n    },\n    \"git\": {\n      \
        \"sha\": null,\n      \"branch\": \"main\",\n      \"dirty\": false\n    },\n    \"versions\": {\n      \
        \"rustc\": null\n    }\n  },\n  \"workload\": {\n    \"n_base\": 10,\n    \"dim\": 2,\n    \
        \"n_queries\": 3,\n    \"k\": 4,\n    \"metric\": \"L2\"\n  },\n  \"results\": {\n    \
        \"cpu_1t_seconds\": 1,\n    \"cpu_1t_qps\": 2,\n    \"cpu_mt_seconds\": 3,\n    \"cpu_mt_qps\": 4,\n    \
        \"gpu_seconds\": 5,\n    \"gpu_qps\": 6,\n    \"speedup_vs_cpu_1t\": 7,\n    \
        \"speedup_vs_cpu_mt\": 8,\n    \"topk_agreement\": null\n  }\n}\n";
    let workload = Workload { n: 10, dim: 2, nq: 3, k: 4 };
    assert_eq!(build_json(&origin, &gpu, &workload, figures), expected);
}

#[test]
fn the_median_is_in_the_middle() {
    assert_eq!(median(&[7]), 7);
    assert_eq!(median(&[9, 1, 5]), 5);
    assert_eq!(median(&[4, 4, 1, 9, 2]), 4);
    assert_eq!(median(&[8, 1, 4, 3]), 3);
    assert_eq!(median(&[u64::MAX, u64::MAX]), u64::MAX);
}

#[test]
fn agreement_counts_shared_results() {
    let cpu = [1, 2, 3, 4, 5, 6];
    assert_eq!(agreement(&cpu, &cpu, 3), 6);
    assert_eq!(agreement(&cpu, &[3, 2, 1, 6, 5, 4], 3), 6);
    assert_eq!(agreement(&cpu, &[4, 5, 6, 1, 2, 3], 3), 0);
    assert_eq!(agreement(&cpu, &[1, 1, 9, 4, 9, 9], 3), 3);
    assert_eq!(agreement(&[], &[], 0), 0);
}

#[test]
fn versions_are_written() {
    assert_eq!(format_cuda_version(12_080), "12.8");
    assert_eq!(format_cuda_version(11_000), "11.0");
    assert_eq!(format_cuda_version(0), "0.0");
    assert_eq!(format_cuda_version(-12_080), "-12.-8");
}

#[test]
fn names_are_read() {
    assert_eq!(name_length(b"card\0\0", 6), 4);
    assert_eq!(name_length(b"abcdef", 4), 4);
    assert_eq!(find(b"a REG_SZ b REG_SZ", b"REG_SZ"), Some(2));
    assert_eq!(find(b"REG_S", b"REG_SZ"), None);
    let text = "processor : 0\nmodel name without\nMODEL NAME\t: A: B\nmodel name: C\n";
    let (from, to) = model_name(text.as_bytes()).unwrap();
    assert_eq!(&text[from..to], " A: B");
    assert_eq!(model_name(b"model: 1\nname: 2"), None);
    assert_eq!(model_name(b""), None);
}
