//! The report of a benchmark.

use vstd::prelude::*;
use crate::json::{
    bool_or_null, entries, integer_or_null, jarray, jbool, jint, jobj, jopt, jstr, list, null,
    object, quoted, quoted_or_null, texts,
};
use crate::text::signed;

verus! {

/// The GPU that was measured, as far as it is known.
pub struct Gpu {
    pub index: i32,
    pub count: Option<i32>,
    pub name: Option<String>,
    pub compute_capability: Option<String>,
    pub driver_version: Option<String>,
    pub runtime_version: Option<String>,
    pub total_vram_bytes: Option<u64>,
}

/// Where and when it was measured, as far as it is known. `changes` lists what was changed
/// since the commit.
pub struct Origin {
    pub timestamp: String,
    pub hostname: Option<String>,
    pub argv: Vec<String>,
    pub cwd: Option<String>,
    pub system: String,
    pub machine: String,
    pub cpu: String,
    pub cores: usize,
    pub sha: Option<String>,
    pub branch: Option<String>,
    pub changes: Option<String>,
    pub rustc: Option<String>,
}

/// What was measured.
pub struct Workload {
    pub n: usize,
    pub dim: usize,
    pub nq: usize,
    pub k: usize,
}

/// What came out, each figure as the text of a number.
pub struct Figures {
    pub cpu_1t_seconds: String,
    pub cpu_1t_qps: String,
    pub cpu_mt_seconds: String,
    pub cpu_mt_qps: String,
    pub gpu_seconds: String,
    pub gpu_qps: String,
    pub speedup_vs_cpu_1t: String,
    pub speedup_vs_cpu_mt: String,
    pub topk_agreement: String,
}

/// What a text says that may be missing.
pub open spec fn opt_text(s: Option<String>) -> Option<Seq<char>> {
    match s {
        Some(s) => Some(s@),
        None => None,
    }
}

/// A string or null.
fn jtext(s: &Option<String>) -> (r: String)
    ensures
        r@ == quoted_or_null(opt_text(*s)),
{
    match s {
        Some(s) => jopt(Some(s.as_str())),
        None => jopt(None),
    }
}

/// A count that may be missing, as a signed number.
pub open spec fn opt_count(n: Option<u64>) -> Option<i64> {
    match n {
        Some(n) => Some(n as i64),
        None => None,
    }
}

/// A device number that may be missing.
pub open spec fn opt_number(n: Option<i32>) -> Option<i64> {
    match n {
        Some(n) => Some(n as i64),
        None => None,
    }
}

/// Whether there are changes, if that is known.
pub open spec fn is_dirty(changes: Option<String>) -> Option<bool> {
    match changes {
        Some(s) => Some(s@.len() > 0),
        None => None,
    }
}

/// What is said of the GPU.
pub open spec fn gpu_entries(gpu: Gpu) -> Seq<(Seq<char>, Seq<char>)> {
    seq![
        ("device_index"@, integer_or_null(Some(gpu.index as i64))),
        ("device_count"@, integer_or_null(opt_number(gpu.count))),
        ("name"@, quoted_or_null(opt_text(gpu.name))),
        ("compute_capability"@, quoted_or_null(opt_text(gpu.compute_capability))),
        ("cuda_driver_version"@, quoted_or_null(opt_text(gpu.driver_version))),
        ("cuda_runtime_version"@, quoted_or_null(opt_text(gpu.runtime_version))),
        ("total_vram_bytes"@, integer_or_null(opt_count(gpu.total_vram_bytes))),
    ]
}

/// What is said of the system.
pub open spec fn os_entries(o: Origin) -> Seq<(Seq<char>, Seq<char>)> {
    seq![("system"@, quoted(o.system@)), ("machine"@, quoted(o.machine@))]
}

/// What is said of the processor.
pub open spec fn cpu_entries(o: Origin) -> Seq<(Seq<char>, Seq<char>)> {
    seq![
        ("model"@, quoted(o.cpu@)),
        ("cores_logical"@, integer_or_null(Some(o.cores as i64))),
    ]
}

/// What is said of the source.
pub open spec fn git_entries(o: Origin) -> Seq<(Seq<char>, Seq<char>)> {
    seq![
        ("sha"@, quoted_or_null(opt_text(o.sha))),
        ("branch"@, quoted_or_null(opt_text(o.branch))),
        ("dirty"@, bool_or_null(is_dirty(o.changes))),
    ]
}

/// What is said of where the figures come from.
pub open spec fn origin_entries(o: Origin, gpu: Gpu) -> Seq<(Seq<char>, Seq<char>)> {
    seq![
        ("timestamp_utc"@, quoted(o.timestamp@)),
        ("hostname"@, quoted_or_null(opt_text(o.hostname))),
        ("argv"@, list(texts(o.argv@))),
        ("cwd"@, quoted_or_null(opt_text(o.cwd))),
        ("os"@, object(4, os_entries(o))),
        ("cpu"@, object(4, cpu_entries(o))),
        ("gpu"@, object(4, gpu_entries(gpu))),
        ("git"@, object(4, git_entries(o))),
        ("versions"@, object(4, seq![("rustc"@, quoted_or_null(opt_text(o.rustc)))])),
    ]
}

/// What is said of what was measured.
pub open spec fn workload_entries(w: Workload) -> Seq<(Seq<char>, Seq<char>)> {
    seq![
        ("n_base"@, integer_or_null(Some(w.n as i64))),
        ("dim"@, integer_or_null(Some(w.dim as i64))),
        ("n_queries"@, integer_or_null(Some(w.nq as i64))),
        ("k"@, integer_or_null(Some(w.k as i64))),
        ("metric"@, quoted("L2"@)),
    ]
}

/// What is said of what came out.
pub open spec fn figure_entries(f: Figures) -> Seq<(Seq<char>, Seq<char>)> {
    seq![
        ("cpu_1t_seconds"@, f.cpu_1t_seconds@),
        ("cpu_1t_qps"@, f.cpu_1t_qps@),
        ("cpu_mt_seconds"@, f.cpu_mt_seconds@),
        ("cpu_mt_qps"@, f.cpu_mt_qps@),
        ("gpu_seconds"@, f.gpu_seconds@),
        ("gpu_qps"@, f.gpu_qps@),
        ("speedup_vs_cpu_1t"@, f.speedup_vs_cpu_1t@),
        ("speedup_vs_cpu_mt"@, f.speedup_vs_cpu_mt@),
        ("topk_agreement"@, f.topk_agreement@),
    ]
}

/// The whole report.
pub open spec fn report_text(o: Origin, gpu: Gpu, w: Workload, f: Figures) -> Seq<char> {
    object(
        0,
        seq![
            ("schema_version"@, "1"@),
            ("provenance"@, object(2, origin_entries(o, gpu))),
            ("workload"@, object(2, workload_entries(w))),
            ("results"@, object(2, figure_entries(f))),
        ],
    ) + seq!['\n']
}

/// What is said of the GPU.
fn jgpu(gpu: &Gpu) -> (r: String)
    ensures
        r@ == object(4, gpu_entries(*gpu)),
{
    let count: Option<i64> = match gpu.count {
        Some(n) => Some(n as i64),
        None => None,
    };
    let vram: Option<i64> = match gpu.total_vram_bytes {
        Some(n) => Some(n as i64),
        None => None,
    };
    let values: Vec<(&str, String)> = vec![
        ("device_index", jint(Some(gpu.index as i64))),
        ("device_count", jint(count)),
        ("name", jtext(&gpu.name)),
        ("compute_capability", jtext(&gpu.compute_capability)),
        ("cuda_driver_version", jtext(&gpu.driver_version)),
        ("cuda_runtime_version", jtext(&gpu.runtime_version)),
        ("total_vram_bytes", jint(vram)),
    ];
    assert(entries(values@) =~= gpu_entries(*gpu));
    jobj(4, values.as_slice())
}

/// What is said of the system.
fn jos(o: &Origin) -> (r: String)
    ensures
        r@ == object(4, os_entries(*o)),
{
    let values: Vec<(&str, String)> = vec![
        ("system", jstr(o.system.as_str())),
        ("machine", jstr(o.machine.as_str())),
    ];
    assert(entries(values@) =~= os_entries(*o));
    jobj(4, values.as_slice())
}

/// What is said of the processor.
fn jcpu(o: &Origin) -> (r: String)
    ensures
        r@ == object(4, cpu_entries(*o)),
{
    let values: Vec<(&str, String)> = vec![
        ("model", jstr(o.cpu.as_str())),
        ("cores_logical", jint(Some(o.cores as i64))),
    ];
    assert(entries(values@) =~= cpu_entries(*o));
    jobj(4, values.as_slice())
}

/// What is said of the source.
fn jgit(o: &Origin) -> (r: String)
    ensures
        r@ == object(4, git_entries(*o)),
{
    let dirty: Option<bool> = match &o.changes {
        Some(s) => Some(s.as_str().unicode_len() > 0),
        None => None,
    };
    let values: Vec<(&str, String)> = vec![
        ("sha", jtext(&o.sha)),
        ("branch", jtext(&o.branch)),
        ("dirty", jbool(dirty)),
    ];
    assert(entries(values@) =~= git_entries(*o));
    jobj(4, values.as_slice())
}

/// What is said of where the figures come from.
fn jorigin(o: &Origin, gpu: &Gpu) -> (r: String)
    ensures
        r@ == object(2, origin_entries(*o, *gpu)),
{
    let versions: Vec<(&str, String)> = vec![("rustc", jtext(&o.rustc))];
    assert(entries(versions@) =~= seq![("rustc"@, quoted_or_null(opt_text(o.rustc)))]);
    let values: Vec<(&str, String)> = vec![
        ("timestamp_utc", jstr(o.timestamp.as_str())),
        ("hostname", jtext(&o.hostname)),
        ("argv", jarray(o.argv.as_slice())),
        ("cwd", jtext(&o.cwd)),
        ("os", jos(o)),
        ("cpu", jcpu(o)),
        ("gpu", jgpu(gpu)),
        ("git", jgit(o)),
        ("versions", jobj(4, versions.as_slice())),
    ];
    assert(entries(values@) =~= origin_entries(*o, *gpu));
    jobj(2, values.as_slice())
}

/// What is said of what was measured.
fn jworkload(w: &Workload) -> (r: String)
    ensures
        r@ == object(2, workload_entries(*w)),
{
    let values: Vec<(&str, String)> = vec![
        ("n_base", jint(Some(w.n as i64))),
        ("dim", jint(Some(w.dim as i64))),
        ("n_queries", jint(Some(w.nq as i64))),
        ("k", jint(Some(w.k as i64))),
        ("metric", jstr("L2")),
    ];
    assert(entries(values@) =~= workload_entries(*w));
    jobj(2, values.as_slice())
}

/// What is said of what came out.
fn jfigures(f: Figures) -> (r: String)
    ensures
        r@ == object(2, figure_entries(f)),
{
    let values: Vec<(&str, String)> = vec![
        ("cpu_1t_seconds", f.cpu_1t_seconds),
        ("cpu_1t_qps", f.cpu_1t_qps),
        ("cpu_mt_seconds", f.cpu_mt_seconds),
        ("cpu_mt_qps", f.cpu_mt_qps),
        ("gpu_seconds", f.gpu_seconds),
        ("gpu_qps", f.gpu_qps),
        ("speedup_vs_cpu_1t", f.speedup_vs_cpu_1t),
        ("speedup_vs_cpu_mt", f.speedup_vs_cpu_mt),
        ("topk_agreement", f.topk_agreement),
    ];
    assert(entries(values@) =~= figure_entries(f));
    jobj(2, values.as_slice())
}

/// The whole report.
pub fn build_json(o: &Origin, gpu: &Gpu, w: &Workload, f: Figures) -> (r: String)
    ensures
        r@ == report_text(*o, *gpu, *w, f),
{
    let values: Vec<(&str, String)> = vec![
        ("schema_version", String::from_str("1")),
        ("provenance", jorigin(o, gpu)),
        ("workload", jworkload(w)),
        ("results", jfigures(f)),
    ];
    let ghost shown = seq![
        ("schema_version"@, "1"@),
        ("provenance"@, object(2, origin_entries(*o, *gpu))),
        ("workload"@, object(2, workload_entries(*w))),
        ("results"@, object(2, figure_entries(f))),
    ];
    assert(entries(values@) =~= shown);
    let mut r: String = jobj(0, values.as_slice());
    r.push('\n');
    assert(r@ =~= report_text(*o, *gpu, *w, f));
    r
}

/// A name stands for a value.
pub open spec fn says(entries: Seq<(Seq<char>, Seq<char>)>, name: Seq<char>, value: Seq<char>) -> bool {
    exists|i: int| 0 <= i < entries.len() && #[trigger] entries[i] == (name, value)
}

/// Each figure stands under its name.
pub proof fn figures_are_named(f: Figures)
    ensures
        says(figure_entries(f), "cpu_1t_seconds"@, f.cpu_1t_seconds@),
        says(figure_entries(f), "cpu_1t_qps"@, f.cpu_1t_qps@),
        says(figure_entries(f), "cpu_mt_seconds"@, f.cpu_mt_seconds@),
        says(figure_entries(f), "cpu_mt_qps"@, f.cpu_mt_qps@),
        says(figure_entries(f), "gpu_seconds"@, f.gpu_seconds@),
        says(figure_entries(f), "gpu_qps"@, f.gpu_qps@),
        says(figure_entries(f), "speedup_vs_cpu_1t"@, f.speedup_vs_cpu_1t@),
        says(figure_entries(f), "speedup_vs_cpu_mt"@, f.speedup_vs_cpu_mt@),
        says(figure_entries(f), "topk_agreement"@, f.topk_agreement@),
{
    let e = figure_entries(f);
    assert(e[0] == ("cpu_1t_seconds"@, f.cpu_1t_seconds@));
    assert(e[1] == ("cpu_1t_qps"@, f.cpu_1t_qps@));
    assert(e[2] == ("cpu_mt_seconds"@, f.cpu_mt_seconds@));
    assert(e[3] == ("cpu_mt_qps"@, f.cpu_mt_qps@));
    assert(e[4] == ("gpu_seconds"@, f.gpu_seconds@));
    assert(e[5] == ("gpu_qps"@, f.gpu_qps@));
    assert(e[6] == ("speedup_vs_cpu_1t"@, f.speedup_vs_cpu_1t@));
    assert(e[7] == ("speedup_vs_cpu_mt"@, f.speedup_vs_cpu_mt@));
    assert(e[8] == ("topk_agreement"@, f.topk_agreement@));
}

/// What was measured stands under its names.
pub proof fn workloads_are_named(w: Workload)
    requires
        w.n <= i64::MAX,
        w.dim <= i64::MAX,
        w.nq <= i64::MAX,
        w.k <= i64::MAX,
    ensures
        says(workload_entries(w), "n_base"@, signed(w.n as int)),
        says(workload_entries(w), "dim"@, signed(w.dim as int)),
        says(workload_entries(w), "n_queries"@, signed(w.nq as int)),
        says(workload_entries(w), "k"@, signed(w.k as int)),
{
    let e = workload_entries(w);
    assert(e[0] == ("n_base"@, signed(w.n as int)));
    assert(e[1] == ("dim"@, signed(w.dim as int)));
    assert(e[2] == ("n_queries"@, signed(w.nq as int)));
    assert(e[3] == ("k"@, signed(w.k as int)));
}

/// What is known of the source stands under its names; there are changes if their list is not
/// empty, and what is not known is null.
pub proof fn sources_are_named(o: Origin)
    ensures
        says(
            git_entries(o),
            "sha"@,
            match o.sha {
                Some(s) => quoted(s@),
                None => "null"@,
            },
        ),
        says(
            git_entries(o),
            "branch"@,
            match o.branch {
                Some(s) => quoted(s@),
                None => "null"@,
            },
        ),
        says(
            git_entries(o),
            "dirty"@,
            match o.changes {
                Some(s) => if s@.len() > 0 {
                    "true"@
                } else {
                    "false"@
                },
                None => "null"@,
            },
        ),
{
    reveal_strlit("null");
    reveal_strlit("true");
    reveal_strlit("false");
    let e = git_entries(o);
    assert("null"@ =~= null());
    assert("true"@ =~= bool_or_null(Some(true)));
    assert("false"@ =~= bool_or_null(Some(false)));
    assert(e[0].0 == "sha"@);
    assert(e[1].0 == "branch"@);
    assert(e[2].0 == "dirty"@);
    assert(e[0] == ("sha"@, match o.sha {
        Some(s) => quoted(s@),
        None => "null"@,
    }));
    assert(e[1] == ("branch"@, match o.branch {
        Some(s) => quoted(s@),
        None => "null"@,
    }));
    assert(e[2] == ("dirty"@, match o.changes {
        Some(s) => if s@.len() > 0 {
            "true"@
        } else {
            "false"@
        },
        None => "null"@,
    }));
}

} // verus!
