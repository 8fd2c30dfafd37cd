use std::collections::BTreeMap;
use std::path::Path;

use procpulse::output::escape_csv_field;
use procpulse::path::{backup_file_name, backup_path, backup_path_in, final_name, PathStyle};
use procpulse::output::{CsvRecord, CsvWriter, WriteStep, CSV_HEADER};
use procpulse::rotation::{FileAction, Rotation};

#[test]
fn test_escape_plain_string() {
    assert_eq!(escape_csv_field("simple_arg"), "simple_arg");
}

#[test]
fn test_escape_spaces() {
    assert_eq!(escape_csv_field("arg with spaces"), "arg with spaces");
    assert_eq!(escape_csv_field(" leading_space"), "\" leading_space\"");
    assert_eq!(escape_csv_field("trailing_space "), "\"trailing_space \"");
}

#[test]
fn test_escape_commas() {
    assert_eq!(escape_csv_field("server,alpha"), "\"server,alpha\"");
}

#[test]
fn test_escape_quotes_and_paths() {
    assert_eq!(
        escape_csv_field(r#"--config "C:\Program Files\App\cfg.ini""#),
        r#""--config ""C:\Program Files\App\cfg.ini""""#
    );
}

#[test]
fn escape_line_breaks_and_other_white_space() {
    assert_eq!(escape_csv_field("a\nb"), "\"a\nb\"");
    assert_eq!(escape_csv_field("a\rb"), "\"a\rb\"");
    assert_eq!(escape_csv_field("\ta"), "\"\ta\"");
    assert_eq!(escape_csv_field("a\tb"), "a\tb");
    assert_eq!(escape_csv_field("a\u{a0}"), "\"a\u{a0}\"");
    assert_eq!(escape_csv_field(""), "");
    assert_eq!(escape_csv_field("\""), "\"\"\"\"");
}

#[test]
fn test_format_row() {
    let record = CsvRecord {
        timestamp: "2026-09-10T17:15:00Z",
        executable: "MyApplication.exe",
        args: "--server alpha --port 8001",
        pid: 4100,
        app_cpu_avg: &format!("{:.3}", 3.21),
        app_cpu_peak: &format!("{:.3}", 12.40),
        app_cpu_cycles: 4500000000,
        app_cpu_time_ms: 1250,
        app_ram_ws_avg_mb: &format!("{:.1}", 428.3),
        app_ram_ws_peak_mb: &format!("{:.1}", 451.8),
        app_priv_ram_avg_mb: &format!("{:.1}", 310.5),
        app_priv_ram_peak_mb: &format!("{:.1}", 325.0),
        app_priv_active_avg_mb: &format!("{:.1}", 215.2),
        app_priv_active_peak_mb: &format!("{:.1}", 220.0),
        app_net_rx_bytes: 1048576,
        app_net_tx_bytes: 524288,
        system_cpu_avg: &format!("{:.2}", 18.72),
        system_cpu_peak: &format!("{:.2}", 37.20),
        system_ram_avg_mb: &format!("{:.1}", 10342.5),
        system_ram_peak_mb: &format!("{:.1}", 10891.2),
        sample_count: 30,
    };

    let row = record.format_row();
    assert_eq!(
        row,
        "2026-09-10T17:15:00Z,MyApplication.exe,--server alpha --port 8001,4100,3.210,12.400,4500000000,1250,428.3,451.8,310.5,325.0,215.2,220.0,1048576,524288,18.72,37.20,10342.5,10891.2,30\n"
    );
}

#[test]
fn test_backup_path_formatting() {
    assert_eq!(backup_path("procpulse_metrics.csv", 1), "procpulse_metrics.1.csv");
    assert_eq!(backup_path("procpulse_metrics.csv", 5), "procpulse_metrics.5.csv");
    assert_eq!(backup_path(r"C:\logs\metrics.csv", 2), r"C:\logs\metrics.2.csv");
    assert_eq!(backup_path("metrics", 1), "metrics.1");
}

#[test]
fn backup_paths_keep_the_directory() {
    assert_eq!(backup_path("logs/metrics.csv", 3), "logs/metrics.3.csv");
    assert_eq!(backup_path("/metrics.csv", 3), "/metrics.3.csv");
    assert_eq!(backup_path("x//y.csv", 3), "x/y.3.csv");
    assert_eq!(backup_path("x/y.csv/.", 3), "x/y.3.csv");
    assert_eq!(backup_path("..", 3), "..");
    assert_eq!(backup_path("x/..", 3), "x/..");
    assert_eq!(backup_path("", 3), "");
}

#[test]
fn backup_names() {
    assert_eq!(backup_file_name("a.b.csv", 12), "a.b.12.csv");
    assert_eq!(backup_file_name(".hidden", 1), ".hidden.1");
    assert_eq!(backup_file_name("name.", 2), "name.2.");
    assert_ne!(backup_file_name("a.csv", 1), backup_file_name("a.csv", 11));
}

/// The backup's path as the standard library writes it on this system.
fn joined_backup(base: &str, index: u32) -> String {
    let path = Path::new(base);
    let name = match path.file_name() {
        Some(name) => name.to_str().unwrap(),
        None => return base.to_string(),
    };
    let file = backup_file_name(name, index);
    let parent = path.parent().unwrap();
    if parent.as_os_str().is_empty() {
        file
    } else {
        parent.join(file).to_str().unwrap().to_string()
    }
}

#[test]
fn paths_agree_with_the_standard_library() {
    let mut bases = vec![String::new()];
    let mut done = 0;
    for _ in 0..7 {
        let end = bases.len();
        for i in done..end {
            for c in ['a', '.', '/', '\\', ':'] {
                let longer = format!("{}{}", bases[i], c);
                bases.push(longer);
            }
        }
        done = end;
    }
    let style = PathStyle::of(std::path::is_separator('\\'));
    for base in &bases {
        let name = Path::new(base).file_name().map(|n| n.to_str().unwrap().to_string());
        assert_eq!(final_name(style, base), name);
        assert_eq!(backup_path(base, 3), joined_backup(base, 3));
        assert_eq!(backup_path_in(style, base, 12), joined_backup(base, 12));
    }
}

#[test]
fn backup_paths_of_windows() {
    let w = PathStyle::Windows;
    assert_eq!(backup_path_in(w, r"C:\logs\metrics.csv", 2), r"C:\logs\metrics.2.csv");
    assert_eq!(backup_path_in(w, "C:/logs/m.csv", 2), r"C:/logs\m.2.csv");
    assert_eq!(backup_path_in(w, "C:/m.csv", 2), "C:/m.2.csv");
    assert_eq!(backup_path_in(w, "C:m.csv", 2), "C:m.2.csv");
    assert_eq!(backup_path_in(w, r"\m", 2), r"\m.2");
    assert_eq!(backup_path_in(w, r"x\\y.csv", 2), r"x\y.2.csv");
    assert_eq!(backup_path_in(w, r"x\.\y.csv\", 2), r"x\y.2.csv");
    assert_eq!(backup_path_in(w, r".\m.csv", 2), r".\m.2.csv");
    assert_eq!(backup_path_in(w, r"lo.gs\m", 2), r"lo.gs\m.2");
    assert_eq!(backup_path_in(w, r"\\server\share\m.csv", 2), r"\\server\share\m.2.csv");
    assert_eq!(backup_path_in(w, r"\\server\share\d\m.csv", 2), r"\\server\share\d\m.2.csv");
    assert_eq!(backup_path_in(w, r"\\server\share\", 2), r"\\server\share\");
    assert_eq!(backup_path_in(w, r"d\x:y", 2), "x:y.2");
    assert_eq!(backup_path_in(w, r"C:\", 2), r"C:\");
    assert_eq!(backup_path_in(w, r"a\..", 2), r"a\..");
}

#[test]
fn final_names_of_windows() {
    let name = |path: &str| final_name(PathStyle::Windows, path);
    assert_eq!(name(r"C:\Apps\svc.exe"), Some("svc.exe".to_string()));
    assert_eq!(name("C:svc.exe"), Some("svc.exe".to_string()));
    assert_eq!(name("a/b\\c/"), Some("c".to_string()));
    assert_eq!(name("ab:c"), Some("ab:c".to_string()));
    assert_eq!(name(r"\\server\share\x"), Some("x".to_string()));
    assert_eq!(name("C:"), None);
    assert_eq!(name("."), None);
}

#[test]
fn backups_never_share_a_path() {
    for base in ["m.csv", "m", ".m", "lo.gs\\m", "a\\.1", "x//y.1.csv/", "C:/logs/m.csv", "a:b:c"] {
        let mut seen = vec![base.to_string()];
        for index in 1..25u32 {
            for style in [PathStyle::Slash, PathStyle::Windows] {
                let path = backup_path_in(style, base, index);
                assert_ne!(path, base);
                for earlier in &seen {
                    assert_ne!(&path, earlier);
                }
            }
            seen.push(backup_path_in(PathStyle::Slash, base, index));
            seen.push(backup_path_in(PathStyle::Windows, base, index));
        }
    }
}

#[test]
fn header_names_the_columns_of_a_row() {
    assert!(CSV_HEADER.ends_with("samples\n"));
    assert_eq!(CSV_HEADER.split(',').count(), 21);
    let mut record = sample_record();
    assert_eq!(record.format_row().split(',').count(), 21);
    record.args = "a,b";
    assert_eq!(record.format_row().split(',').count(), 22);
    assert!(record.format_row().contains(",\"a,b\",1234,"));
}

fn sample_record() -> CsvRecord<'static> {
    CsvRecord {
        timestamp: "2026-09-13T12:00:00Z",
        executable: "test.exe",
        args: "--arg 1",
        pid: 1234,
        app_cpu_avg: "1.000",
        app_cpu_peak: "2.000",
        app_cpu_cycles: 100,
        app_cpu_time_ms: 10,
        app_ram_ws_avg_mb: "10.0",
        app_ram_ws_peak_mb: "12.0",
        app_priv_ram_avg_mb: "8.0",
        app_priv_ram_peak_mb: "9.0",
        app_priv_active_avg_mb: "7.0",
        app_priv_active_peak_mb: "7.5",
        app_net_rx_bytes: 0,
        app_net_tx_bytes: 0,
        system_cpu_avg: "5.00",
        system_cpu_peak: "10.00",
        system_ram_avg_mb: "4000.0",
        system_ram_peak_mb: "4100.0",
        sample_count: 5,
    }
}

/// Files in memory; number zero is the active one.
struct Disk {
    files: BTreeMap<u32, String>,
}

impl Disk {
    fn open(path: &str, max_bytes: u64, max_files: u32) -> (Disk, CsvWriter) {
        let mut files = BTreeMap::new();
        files.insert(0, CSV_HEADER.to_string());
        (Disk { files }, CsvWriter::with_max_bytes(path, max_bytes, max_files, 0))
    }

    fn perform(&mut self, mut rotation: Rotation) {
        while let Some(action) = rotation.current() {
            let mut present = false;
            match action {
                FileAction::Probe(i) => present = self.files.contains_key(&i),
                FileAction::Remove(i) => {
                    self.files.remove(&i);
                }
                FileAction::Rename { from, to } => {
                    let content = self.files.remove(&from).unwrap();
                    self.files.insert(to, content);
                }
                FileAction::Recreate => {
                    self.files.insert(0, CSV_HEADER.to_string());
                }
            }
            rotation.advance(present);
        }
    }

    fn write(&mut self, writer: &mut CsvWriter, record: &CsvRecord) {
        let (row, step) = writer.write_record(record);
        if step == WriteStep::Rotate {
            let rotation = writer.rotate();
            assert!(!writer.is_open());
            self.perform(rotation);
            writer.rotated();
        }
        assert!(writer.is_open());
        self.files.get_mut(&0).unwrap().push_str(&row);
        writer.appended(&row);
        assert_eq!(writer.current_bytes(), self.files[&0].len() as u64);
    }
}

#[test]
fn test_csv_rotation_threshold_and_content() {
    let record = sample_record();
    let row_len = record.format_row().len() as u64;
    let header_len = CSV_HEADER.len() as u64;

    // Set max_bytes such that header fits, but writing 1 record triggers rotation
    let max_bytes = header_len + row_len / 2;

    let (mut disk, mut writer) = Disk::open("test_metrics.csv", max_bytes, 3);
    assert_eq!(writer.current_bytes(), header_len);

    disk.write(&mut writer, &record);

    assert_eq!(disk.files[&1], CSV_HEADER);
    assert!(disk.files[&0].starts_with(CSV_HEADER));
    assert!(disk.files[&0].contains("test.exe,--arg 1,1234"));
}

#[test]
fn test_csv_rotation_backup_shifting() {
    // Keep at most 3 backups
    let (mut disk, mut writer) = Disk::open("shift_metrics.csv", 1, 3);
    let record = sample_record();

    // Write 4 records: each write will exceed 1 byte and trigger rotation
    for _ in 0..4 {
        disk.write(&mut writer, &record);
    }

    assert!(disk.files.contains_key(&0), "Active file must exist");
    assert!(disk.files.contains_key(&1), "Backup 1 must exist");
    assert!(disk.files.contains_key(&2), "Backup 2 must exist");
    assert!(disk.files.contains_key(&3), "Backup 3 must exist");
    assert!(!disk.files.contains_key(&4), "Backup 4 must NOT exist as max_files is 3");
}

#[test]
fn test_csv_rotation_disabled_when_zero() {
    // max_bytes = 0 disables rotation
    let (mut disk, mut writer) = Disk::open("disabled_metrics.csv", 0, 5);
    let record = sample_record();

    for _ in 0..5 {
        disk.write(&mut writer, &record);
    }

    assert!(disk.files.contains_key(&0));
    assert!(!disk.files.contains_key(&1), "No backup should be created when rotation is disabled");
}

#[test]
fn test_csv_rotation_zero_backups() {
    // max_files = 0 means no backups kept
    let (mut disk, mut writer) = Disk::open("zero_bkp_metrics.csv", 1, 0);
    let record = sample_record();

    disk.write(&mut writer, &record);

    assert!(disk.files.contains_key(&0));
    assert!(!disk.files.contains_key(&1), "No backup files should exist when max_files is 0");
}

#[test]
fn rotation_shifts_contents() {
    let mut disk = Disk { files: BTreeMap::new() };
    for i in 0..5u32 {
        disk.files.insert(i, format!("content {}", i));
    }
    disk.perform(Rotation::start(3));
    assert_eq!(disk.files[&0], CSV_HEADER);
    assert_eq!(disk.files[&1], "content 0");
    assert_eq!(disk.files[&2], "content 1");
    assert_eq!(disk.files[&3], "content 2");
    // A file beyond the number of backups is none of the rotation's business.
    assert_eq!(disk.files[&4], "content 4");
}

#[test]
fn rotation_passes_over_gaps() {
    let mut disk = Disk { files: BTreeMap::new() };
    disk.files.insert(2, "two".to_string());
    disk.perform(Rotation::start(5));
    assert_eq!(disk.files[&0], CSV_HEADER);
    assert_eq!(disk.files[&3], "two");
    assert_eq!(disk.files.len(), 2);
}

#[test]
fn file_stays_within_the_limit() {
    let record = sample_record();
    let limit = CSV_HEADER.len() as u64 + 3 * record.format_row().len() as u64;
    let (mut disk, mut writer) = Disk::open("m.csv", limit, 2);
    for _ in 0..20 {
        disk.write(&mut writer, &record);
        assert!(writer.current_bytes() <= limit);
    }
    assert_eq!(disk.files.len(), 3);
    assert_eq!(writer.max_bytes(), limit);
    assert_eq!(writer.max_files(), 2);
    assert_eq!(writer.path(), "m.csv");
}

#[test]
fn writer_goes_on_with_an_existing_file() {
    let writer = CsvWriter::new("m.csv", 100, 2, 70);
    assert_eq!(writer.current_bytes(), 70);
    assert!(!CsvWriter::header_due(70));
    assert!(CsvWriter::header_due(0));
    assert_eq!(CsvWriter::new("m.csv", 100, 2, 0).current_bytes(), CSV_HEADER.len() as u64);
}

#[test]
fn closed_writer_skips_rows_below_the_limit() {
    let mut writer = CsvWriter::new("m.csv", 0, 2, 10);
    writer.rotate();
    let (row, step) = writer.write_record(&sample_record());
    assert_eq!(step, WriteStep::Skip);
    writer.appended(&row);
    assert_eq!(writer.current_bytes(), 10);
    let mut limited = CsvWriter::new("m.csv", 11, 2, 10);
    limited.rotate();
    assert_eq!(limited.write_record(&sample_record()).1, WriteStep::Rotate);
}

/// A reader of CSV records as RFC 4180 describes them.
fn read_row(row: &str) -> Vec<String> {
    let chars: Vec<char> = row.chars().collect();
    let mut fields = vec![String::new()];
    let mut quoted = false;
    let mut i = 0;
    while i < chars.len() {
        let c = chars[i];
        if quoted {
            if c != '"' {
                fields.last_mut().unwrap().push(c);
            } else if i + 1 < chars.len() && chars[i + 1] == '"' {
                fields.last_mut().unwrap().push('"');
                i += 1;
            } else {
                quoted = false;
            }
        } else if c == '"' {
            quoted = true;
        } else if c == ',' {
            fields.push(String::new());
        } else if c == '\n' {
            break;
        } else {
            fields.last_mut().unwrap().push(c);
        }
        i += 1;
    }
    fields
}

#[test]
fn rows_read_back() {
    let mut record = sample_record();
    for args in ["", "a", " a ", "a,b\",\"c", "line\nbreak", "\"\"", "\r"] {
        record.args = args;
        record.executable = args;
        let fields = read_row(&record.format_row());
        assert_eq!(fields.len(), 21);
        assert_eq!(fields[1], args);
        assert_eq!(fields[2], args);
        assert_eq!(fields[3], "1234");
        assert_eq!(fields[20], "5");
    }
}
