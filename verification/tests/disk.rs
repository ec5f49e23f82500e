//! File operations, rotations and the shell history carried out on a disk
//! held in memory: the library plans, checks and steps; this disk answers.

use std::collections::BTreeMap;

use omapic::exif::{rotation_edit, Edit, Exif};
use omapic::fsops::{execute, plan, steps, Action, Op, Outcome, Plan, Probe};
use omapic::history::{entries, remembered, render};
use omapic::paths::same_path_of;

#[derive(Clone, Debug, PartialEq)]
enum Entry {
    File(String),
    Link(String),
}

#[derive(Default)]
struct Disk {
    entries: BTreeMap<String, Entry>,
    dirs: Vec<String>,
}

fn chars(s: &str) -> Vec<char> {
    s.chars().collect()
}

impl Disk {
    fn touch(&mut self, path: &str) -> String {
        let name = path.rsplit('/').next().unwrap().to_string();
        self.entries.insert(path.to_string(), Entry::File(name));
        path.to_string()
    }

    fn key(&self, path: &str) -> Option<String> {
        self.entries.keys().find(|k| same_path_of(&chars(k), &chars(path))).cloned()
    }

    fn read(&self, path: &str) -> Option<String> {
        match self.entries.get(&self.key(path)?)? {
            Entry::File(text) => Some(text.clone()),
            Entry::Link(to) => self.read(to),
        }
    }

    /// Plan as the program does: steps first, then what the disk says of each.
    fn plan(&self, op: Op, files: &[String], dest: &str, prefix: bool) -> Result<Plan, String> {
        let planned = steps(op, files, dest, prefix)?;
        let probes: Vec<Probe> = planned
            .iter()
            .map(|s| Probe {
                source_is_file: matches!(self.key(&s.src).and_then(|k| self.entries.get(&k).cloned()), Some(Entry::File(_))),
                target_exists: self.key(&s.dst).is_some(),
            })
            .collect();
        plan(op, files, dest, prefix, &probes)
    }

    fn transfer(&mut self, op: Op, from: &str, to: &str) -> Result<(), String> {
        if self.key(to).is_some() {
            return Err(format!("exists: {to}"));
        }
        let key = self.key(from).ok_or(format!("missing: {from}"))?;
        match op {
            Op::Copy | Op::Hardlink => {
                let entry = self.entries[&key].clone();
                self.entries.insert(to.to_string(), entry);
            }
            Op::Symlink => {
                self.entries.insert(to.to_string(), Entry::Link(from.to_string()));
            }
            Op::Move | Op::Rename => {
                let entry = self.entries.remove(&key).unwrap();
                self.entries.insert(to.to_string(), entry);
            }
        }
        Ok(())
    }

    fn run(&mut self, plan: &Plan) -> Outcome {
        let mut run = execute(plan, 7);
        let mut last = Ok(());
        loop {
            last = match run.next(last) {
                Action::Finish => break,
                Action::CreateDirs(dir) => {
                    self.dirs.push(dir);
                    Ok(())
                }
                Action::Transfer(op, from, to) => self.transfer(op, &from, &to),
                Action::PutBack(from, to) => {
                    let _ = self.transfer(Op::Rename, &from, &to);
                    Ok(())
                }
            };
        }
        run.outcome()
    }
}

#[test]
fn copy_with_order_prefix() {
    let mut disk = Disk::default();
    let files = vec![disk.touch("/t/b.jpg"), disk.touch("/t/a.jpg")];
    let plan = disk.plan(Op::Copy, &files, "/t/out/nested", true).unwrap();
    let out = disk.run(&plan);
    assert!(out.error.is_none());
    assert_eq!(disk.dirs, vec!["/t/out/nested".to_string()]);
    assert_eq!(disk.read("/t/out/nested/001_b.jpg").as_deref(), Some("b.jpg"));
    assert_eq!(disk.read("/t/out/nested/002_a.jpg").as_deref(), Some("a.jpg"));
    assert!(disk.read(&files[0]).is_some());
}

#[test]
fn collisions_are_found_before_anything_moves() {
    let mut disk = Disk::default();
    let files = vec![disk.touch("/t/a.jpg"), disk.touch("/t/b.jpg")];
    disk.touch("/t/out/b.jpg");
    let err = disk.plan(Op::Move, &files, "/t/out", false).unwrap_err();
    assert!(err.contains("exists"), "{err}");
    assert!(disk.read(&files[0]).is_some() && disk.read(&files[1]).is_some());

    // Same name from two directories.
    let other = disk.touch("/t/out/a.jpg");
    let err = disk.plan(Op::Copy, &[files[0].clone(), other], "/t/new", false).unwrap_err();
    assert!(err.contains("both become"), "{err}");
}

#[test]
fn links_leave_originals_alone() {
    let mut disk = Disk::default();
    let files = vec![disk.touch("/t/a.jpg"), disk.touch("/t/b.jpg")];
    let soft = disk.plan(Op::Symlink, &files, "/t/soft", true).unwrap();
    assert!(disk.run(&soft).error.is_none());
    assert_eq!(disk.entries.get("/t/soft/001_a.jpg"), Some(&Entry::Link("/t/a.jpg".to_string())));
    assert_eq!(disk.read("/t/soft/002_b.jpg").as_deref(), Some("b.jpg"));

    let hard = disk.plan(Op::Hardlink, &files, "/t/hard", false).unwrap();
    assert!(disk.run(&hard).error.is_none());
    assert_eq!(disk.entries.get("/t/hard/a.jpg"), Some(&Entry::File("a.jpg".to_string())));

    // A second run collides and is refused up front.
    assert!(disk.plan(Op::Symlink, &files, "/t/soft", true).is_err());
    assert!(files.iter().all(|f| disk.read(f).is_some()));
}

#[test]
fn move_updates_files() {
    let mut disk = Disk::default();
    let files = vec![disk.touch("/t/a.jpg")];
    let plan = disk.plan(Op::Move, &files, "/t/out", false).unwrap();
    let out = disk.run(&plan);
    assert_eq!(out.done, vec![0]);
    assert!(disk.read(&files[0]).is_none() && disk.read("/t/out/a.jpg").is_some());
}

#[test]
fn renumbering_overlapping_names() {
    let mut disk = Disk::default();
    // Reverse an already-prefixed pair: each target is the other's source.
    let files = vec![disk.touch("/t/002_x.jpg"), disk.touch("/t/001_x.jpg")];
    let plan = disk.plan(Op::Rename, &files, "", true).unwrap();
    assert_eq!(plan.steps[0].dst, "/t/001_x.jpg");
    let out = disk.run(&plan);
    assert!(out.error.is_none(), "{:?}", out.error);
    assert_eq!(disk.read("/t/001_x.jpg").as_deref(), Some("002_x.jpg"));
    assert_eq!(disk.read("/t/002_x.jpg").as_deref(), Some("001_x.jpg"));
    assert_eq!(disk.entries.len(), 2);
}

#[test]
fn rename_refuses_foreign_collision() {
    let mut disk = Disk::default();
    let files = vec![disk.touch("/t/a.jpg")];
    disk.touch("/t/001_a.jpg");
    assert!(disk.plan(Op::Rename, &files, "", true).is_err());
}

/// `bytes` with the rotation by `quarters` written into them.
fn rotated(bytes: &[u8], quarters: u8) -> Result<Vec<u8>, String> {
    assert!(Exif::rotation_readable(bytes));
    Ok(match rotation_edit("/t/x.jpg", bytes, quarters)? {
        Edit::Overwrite { offset, bytes: new } => {
            let mut out = bytes.to_vec();
            out[offset..offset + new.len()].copy_from_slice(&new);
            out
        }
        Edit::Splice { start, end, bytes: new } => [&bytes[..start], &new[..], &bytes[end..]].concat(),
    })
}

fn orientation(bytes: &[u8]) -> u16 {
    Exif::find(bytes).and_then(|e| e.orientation()).map_or(0, |(_, _, value)| value)
}

#[test]
fn rotation_rewrites_only_the_orientation() {
    // No EXIF yet: JFIF header, then image data.
    let body = [0xff, 0xd8, 0xff, 0xe0, 0, 4, b'J', b'F', 0xff, 0xda, 0, 2, 9, 9, 0xff, 0xd9];
    let once = rotated(&body, 1).unwrap();
    assert_eq!(orientation(&once), 6);
    assert_eq!(once.len(), body.len() + 36);
    assert_eq!(once[..8], body[..8]); // JFIF stays in front
    assert_eq!(once[8 + 36..], body[8..]); // image data untouched

    // Now there is a tag: it is patched in place.
    let twice = rotated(&once, 1).unwrap();
    assert_eq!(orientation(&twice), 3);
    assert_eq!(twice.len(), once.len());
    assert_eq!(orientation(&rotated(&twice, 2).unwrap()), 1);

    assert!(rotated(b"x.png", 1).unwrap_err().contains("only JPEG"));
}

#[test]
fn newest_first_without_duplicates() {
    let mut text = String::new();
    assert!(entries(&text).is_empty());
    for command in ["a {}", "b {}", "a {}", "  c {+} "] {
        text = render(&remembered(&entries(&text), command));
    }
    assert_eq!(entries(&text), ["c {+}", "a {}", "b {}"]);
}
