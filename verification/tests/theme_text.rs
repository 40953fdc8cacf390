use nxtop::proc::{GpuInfo, TempReading};
use nxtop::theme::{
    cpu_label, gpu_label, help_text, rate_unit, temp_line, total_unit, tree_label, vram_pct, ByteUnit,
    Theme, Tone,
};

#[test]
fn bars() {
    assert_eq!(Theme::bar(50, 8), "[████░░░░]  50%");
    assert_eq!(Theme::bar(100, 8), "[████████] 100%");
    assert_eq!(Theme::bar(5, 8), "[░░░░░░░░]   5%");
    assert_eq!(Theme::bar(250, 4), "[████] 250%");
    assert_eq!(Theme::bar(1000, 2), "[██] 1000%");
    assert_eq!(Theme::bar(30, 0), "[]  30%");
}

#[test]
fn tones() {
    assert_eq!(Theme::cpu_color(40), Tone::Normal);
    assert_eq!(Theme::cpu_color(41), Tone::Warning);
    assert_eq!(Theme::cpu_color(75), Tone::Warning);
    assert_eq!(Theme::cpu_color(76), Tone::Critical);
    assert_eq!(Theme::mem_color(50), Tone::Normal);
    assert_eq!(Theme::mem_color(80), Tone::Warning);
    assert_eq!(Theme::mem_color(81), Tone::Critical);
    assert_eq!(Theme::temp_color(59), Tone::Normal);
    assert_eq!(Theme::temp_color(60), Tone::Warning);
    assert_eq!(Theme::temp_color(80), Tone::Critical);
}

#[test]
fn tree_labels() {
    let n = "bash".to_string();
    assert_eq!(tree_label(&n, 2, true), "  └─ bash");
    assert_eq!(tree_label(&n, 1, true), "└─ bash");
    assert_eq!(tree_label(&n, 0, true), "bash");
    assert_eq!(tree_label(&n, 3, false), "bash");
}

#[test]
fn labels() {
    assert_eq!(cpu_label(3, 42), "CPU 3  [███░░░░░]  42%");
    assert_eq!(cpu_label(12, 100), "CPU12  [████████] 100%");
    let t = TempReading { source: "cpu".to_string(), label: "Package id 0".to_string(), temp_c: 45 };
    assert_eq!(temp_line(&t), "cpu     Package id 0             45°C  [███░░░░░]  45%");
    let hot = TempReading { source: "nvme".to_string(), label: "Composite".to_string(), temp_c: 120 };
    assert_eq!(temp_line(&hot), "nvme    Composite               120°C  [████████] 100%");
    let g = GpuInfo {
        name: "NVIDIA GeForce RTX 3080".to_string(),
        util_pct: 80,
        vram_used_mb: 0,
        vram_total_mb: 0,
        temp_c: Some(65),
    };
    assert_eq!(gpu_label(&g), "NVIDIA GeFor  [██████░░]  80%   65°C");
    let g2 = GpuInfo { name: "GPU 0".to_string(), util_pct: 0, vram_used_mb: 0, vram_total_mb: 0, temp_c: None };
    assert_eq!(gpu_label(&g2), "GPU 0         [░░░░░░░░]   0%       ");
}

#[test]
fn vram_share() {
    assert_eq!(vram_pct(1024, 8192), 12);
    assert_eq!(vram_pct(10, 0), 100);
    assert_eq!(vram_pct(0, 0), 0);
    assert_eq!(vram_pct(9000, 8192), 100);
}

#[test]
fn units() {
    assert_eq!(rate_unit(1023), ByteUnit::B);
    assert_eq!(rate_unit(1024), ByteUnit::KB);
    assert_eq!(rate_unit(1024 * 1024), ByteUnit::MB);
    assert_eq!(rate_unit(u64::MAX), ByteUnit::MB);
    assert_eq!(total_unit(1024 * 1024 * 1024), ByteUnit::GB);
    assert_eq!(total_unit(1024 * 1024), ByteUnit::MB);
    assert_eq!(total_unit(2048), ByteUnit::KB);
    assert_eq!(total_unit(0), ByteUnit::B);
}

#[test]
fn help_lines() {
    assert_eq!(help_text(0, true), " ESC/Enter: fechar filtro");
    assert!(help_text(0, false).starts_with(" j/k"));
    assert_eq!(help_text(2, true), " Tab: próxima aba  │  q: sair");
}
