use hyprconfig::sysinfo::{
    cpu_model, disk_total_text, disk_used_text, first_line_or_unknown, format_duration,
    gpus_from_listing, os_name, ram_total_text, ram_used_text, shell_text, trimmed_or_unknown,
    uptime_text,
};

#[test]
fn os_release_pretty_name() {
    let text = "NAME=\"Arch Linux\"\nPRETTY_NAME=\"Arch Linux\"\nID=arch\n";
    assert_eq!(os_name(text), "Arch Linux");
    assert_eq!(os_name("NAME=x\n"), "Unknown");
}

#[test]
fn uptime_formats() {
    assert_eq!(uptime_text("93784.55 1234.00\n"), "1d 2h 3m");
    assert_eq!(uptime_text("7260.99 10.0"), "2h 1m");
    assert_eq!(uptime_text("59.9 1.0"), "0m");
    assert_eq!(uptime_text("garbage"), "Unknown");
    assert_eq!(uptime_text(""), "Unknown");
    assert_eq!(format_duration(86400), "1d 0h 0m");
}

#[test]
fn gpu_listing() {
    let listing = "00:02.0 VGA compatible controller: Intel Corporation Alder Lake-P GT2 [Iris Xe Graphics] (rev 0c)\n01:00.0 3D controller: NVIDIA Corporation GA107M [GeForce RTX 3050 Mobile] (rev a1)\n00:1f.3 Audio device: Intel Corporation\n";
    assert_eq!(
        gpus_from_listing(listing),
        vec![
            "Intel Corporation Alder Lake-P GT2 [Iris Xe Graphics] (rev 0c)".to_string(),
            "NVIDIA Corporation GA107M [GeForce RTX 3050 Mobile] (rev a1)".to_string(),
        ]
    );
    assert_eq!(gpus_from_listing(""), vec!["Unknown".to_string()]);
}

#[test]
fn memory_used_and_total() {
    let meminfo = "MemTotal:       16384000 kB\nMemFree:         1000000 kB\nMemAvailable:    8192000 kB\n";
    assert_eq!(ram_used_text(meminfo), "7.81 GB");
    assert_eq!(ram_total_text(meminfo), "15.62 GB");
    assert_eq!(ram_used_text("MemTotal: 100 kB\n"), "Unknown");
    assert_eq!(ram_used_text("MemTotal: 100 kB\nMemAvailable: 200 kB\n"), "Unknown");
    assert_eq!(ram_total_text("MemFree: 1 kB\n"), "Unknown");
}

#[test]
fn memory_rounding_ties_to_even() {
    assert_eq!(ram_total_text("MemTotal: 131072 kB\n"), "0.12 GB");
    assert_eq!(ram_total_text("MemTotal: 393216 kB\n"), "0.38 GB");
    assert_eq!(ram_total_text("MemTotal: 1048576 kB\n"), "1.00 GB");
}

#[test]
fn disk_fields() {
    let df = "Filesystem      Size  Used Avail Use% Mounted on\n/dev/nvme0n1p2  468G  201G  244G  46% /\n";
    assert_eq!(disk_used_text(df), "201G");
    assert_eq!(disk_total_text(df), "468G");
    assert_eq!(disk_used_text("Filesystem\n"), "Unknown");
}

#[test]
fn cpu_model_name() {
    let cpuinfo = "processor\t: 0\nmodel name\t: 12th Gen Intel(R) Core(TM) i7-1260P\nflags\t: fpu\n";
    assert_eq!(cpu_model(cpuinfo), "12th Gen Intel(R) Core(TM) i7-1260P");
    assert_eq!(cpu_model("processor : 0\n"), "Unknown");
}

#[test]
fn shell_description() {
    assert_eq!(shell_text("/bin/zsh", Some("zsh 5.9 (x86_64-pc-linux-gnu)\n")), "zsh 5.9 (x86_64-pc-linux-gnu)");
    assert_eq!(shell_text("/usr/bin/fish", None), "fish");
    assert_eq!(shell_text("/usr/bin/fish/", Some("")), "fish");
    assert_eq!(shell_text("/", None), "sh");
    assert_eq!(shell_text("/usr/..", None), "sh");
}

#[test]
fn tool_output_fallbacks() {
    assert_eq!(trimmed_or_unknown(Some(" host\n")), "host");
    assert_eq!(trimmed_or_unknown(None), "Unknown");
    assert_eq!(first_line_or_unknown(Some("Hyprland 0.45.0 built\nmore\n")), "Hyprland 0.45.0 built");
    assert_eq!(first_line_or_unknown(Some("")), "Unknown");
    assert_eq!(first_line_or_unknown(None), "Unknown");
}
