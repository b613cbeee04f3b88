use encrypt::cli::encrypt::key_path;
use encrypt::cli::{
    complaint, decrypt_entry_point, encrypt_entry_point, parse_args, read_password, Command,
    DecryptCommand, EncryptCommand,
};
use encrypt::crypto::encryptor::encrypt_stream_with_salt;
use encrypt::crypto::{encrypt_stream, CryptoError, SecureKey, StreamDecryptor};
use encrypt::fsops::action::Trouble;
use encrypt::fsops::delete::{secure_delete_with, OVERWRITE_PIECE};
use encrypt::fsops::encrypt::encrypt_file_with;
use encrypt::fsops::encrypt_dir::can_seal_name;
use encrypt::fsops::stats::trouble_text;
use encrypt::fsops::{
    begin_directory_decryption, count_encrypted_payloads, decrypt_directory_recursive,
    decrypt_file, encrypt_directory_recursive, encrypt_file, progress_bar, secure_delete, show,
    Action, DecryptDirectory, DecryptFile, EncryptDirectory, EncryptFile, EncryptionStats,
    FileError, FileKind, FileReply, Listing, Notice, Progress, Reply, SecureDelete, TreeEntry,
};
use std::collections::{BTreeMap, VecDeque};

type Act = Action<Vec<u8>, String>;
type Done = Result<(), FileError>;

#[derive(Clone, Debug, PartialEq)]
enum Node {
    File(Vec<u8>),
    Directory,
    Link,
}

/// Files in memory, with everything that was asked of them.
#[derive(Default)]
struct World {
    nodes: BTreeMap<String, Node>,
    asked: Vec<String>,
    said: Vec<String>,
    errors: Vec<String>,
    passwords: VecDeque<String>,
    fail: Option<&'static str>,
    unread: Vec<&'static str>,
    marker_stays: bool,
    dangling: bool,
    taken: usize,
}

fn s(path: &[u8]) -> String {
    String::from_utf8_lossy(path).into_owned()
}

fn parent_of(path: &str) -> &str {
    path.rfind('/').map(|i| &path[..i]).unwrap_or("")
}

impl World {
    fn with(files: &[(&str, &[u8])]) -> World {
        let mut world = World::default();
        for (path, content) in files {
            world.put(path, content);
        }
        world
    }

    fn put(&mut self, path: &str, content: &[u8]) {
        let mut dir = parent_of(path);
        while !dir.is_empty() {
            self.nodes.insert(dir.to_string(), Node::Directory);
            dir = parent_of(dir);
        }
        self.nodes.insert(path.to_string(), Node::File(content.to_vec()));
    }

    fn file(&self, path: &str) -> Option<&[u8]> {
        match self.nodes.get(path) {
            Some(Node::File(content)) => Some(content),
            _ => None,
        }
    }

    fn files(&self) -> Vec<(&str, &[u8])> {
        let mut all = Vec::new();
        for (path, node) in &self.nodes {
            if let Node::File(content) = node {
                all.push((path.as_str(), &content[..]));
            }
        }
        all
    }

    fn note(&mut self, notice: Option<Notice<Vec<u8>, String>>, errors: &Vec<String>) {
        if let Some(notice) = notice {
            let shown = show(&notice, errors);
            if let Some(err) = shown.err {
                self.errors.push(err);
            }
            if let Some(out) = shown.out {
                self.said.push(out);
            }
        }
    }

    fn meta(&self, path: &[u8]) -> FileReply {
        Reply::Meta(match self.nodes.get(&s(path)) {
            Some(Node::File(content)) => Ok((FileKind::File, content.len() as u64)),
            Some(Node::Directory) => Ok((FileKind::Directory, 0)),
            Some(Node::Link) => Ok((FileKind::Symlink, 0)),
            None => Err("not found".to_string()),
        })
    }

    fn rename(&mut self, from: &str, to: &str) {
        let below = format!("{}/", from);
        let old: Vec<String> = self.nodes.keys().cloned().collect();
        for path in old {
            if path == from {
                let node = self.nodes.remove(&path).unwrap();
                self.nodes.insert(to.to_string(), node);
            } else if let Some(rest) = path.strip_prefix(&below) {
                let node = self.nodes.remove(&path).unwrap();
                self.nodes.insert(format!("{}/{}", to, rest), node);
            }
        }
    }

    fn failing(&mut self, tag: &'static str) -> bool {
        self.fail == Some(tag)
    }

    fn plain(&mut self, act: &Act) -> Option<FileReply> {
        let injected = || Err("injected".to_string());
        Some(match act {
            Action::Stat(path) => {
                self.asked.push(format!("stat {}", s(path)));
                if self.failing("stat") {
                    return Some(Reply::Meta(Err("injected".to_string())));
                }
                self.meta(path)
            }
            Action::CheckExists(path) => {
                self.asked.push(format!("exists {}", s(path)));
                let leads = !(self.dangling && self.nodes.get(&s(path)) == Some(&Node::Link));
                Reply::Answer(self.nodes.contains_key(&s(path)) && leads)
            }
            Action::CheckTaken(path) => {
                self.asked.push(format!("taken {}", s(path)));
                if self.taken > 0 {
                    self.taken -= 1;
                    return Some(Reply::Answer(true));
                }
                Reply::Answer(self.nodes.contains_key(&s(path)))
            }
            Action::CheckDirectory(path) => {
                Reply::Answer(self.nodes.get(&s(path)) == Some(&Node::Directory))
            }
            Action::ReadFile(path) => {
                self.asked.push(format!("read {}", s(path)));
                if self.failing("read") {
                    return Some(Reply::Bytes(Err("injected".to_string())));
                }
                Reply::Bytes(self.file(&s(path)).map(|c| c.to_vec()).ok_or("no file".to_string()))
            }
            Action::ListDirectory(path) => {
                self.asked.push(format!("list {}", s(path)));
                if self.failing("list") {
                    return Some(Reply::Entries(Err("injected".to_string())));
                }
                let dir = s(path);
                let inside = self.nodes.keys().filter(|p| parent_of(p) == dir && **p != dir);
                let entries = inside.map(|p| p.as_bytes().to_vec()).collect();
                let failed = self.unread.iter().map(|e| e.to_string()).collect();
                Reply::Entries(Ok(Listing { entries, failed }))
            }
            Action::Remove(path) => {
                self.asked.push(format!("remove {}", s(path)));
                self.nodes.remove(&s(path));
                Reply::Done(Ok(()))
            }
            Action::Rename(from, to) => {
                self.asked.push(format!("rename {} {}", s(from), s(to)));
                if self.failing("rename") {
                    return Some(Reply::Done(injected()));
                }
                self.rename(&s(from), &s(to));
                Reply::Done(Ok(()))
            }
            Action::WriteFile(path, bytes) => {
                self.asked.push(format!("write {}", s(path)));
                self.nodes.insert(s(path), Node::File(bytes.clone()));
                Reply::Done(Ok(()))
            }
            Action::WriteKeyFile(path, bytes, mode) => {
                self.asked.push(format!("key {} {:o}", s(path), mode));
                if self.failing("key") {
                    return Some(Reply::Done(injected()));
                }
                self.nodes.insert(s(path), Node::File(bytes.clone()));
                Reply::Done(Ok(()))
            }
            Action::AskPassword(prompt) => {
                self.asked.push(prompt.clone());
                Reply::Password(self.passwords.pop_front().ok_or("no terminal".to_string()))
            }
            Action::CountPayloads(path) => {
                let mut entries = Vec::new();
                for (p, node) in &self.nodes {
                    if p.starts_with(&s(path)) {
                        let is_file = matches!(node, Node::File(_));
                        entries.push(TreeEntry { path: p.as_bytes().to_vec(), is_file });
                    }
                }
                Reply::Count(count_encrypted_payloads(&entries))
            }
            _ => return None,
        })
    }

    fn secure_delete(&mut self, path: &[u8]) -> Done {
        let mut op = SecureDelete::begin(path);
        let mut at = 0;
        let mut target = String::new();
        loop {
            let act = op.action();
            let reply = match &act {
                Action::OpenForOverwrite(p) => {
                    self.asked.push(format!("overwrite {}", s(p)));
                    target = s(p);
                    let marker = self.marker_stays && target.ends_with(".dirname.enc");
                    if self.failing("overwrite") || marker {
                        Reply::Done(Err("injected".to_string()))
                    } else {
                        Reply::Done(Ok(()))
                    }
                }
                Action::Overwrite(noise) => {
                    match self.nodes.get_mut(&target) {
                        Some(Node::File(c)) => c[at..at + noise.len()].copy_from_slice(noise),
                        _ => panic!("nothing to overwrite"),
                    }
                    at += noise.len();
                    Reply::Done(Ok(()))
                }
                Action::SyncOverwritten => {
                    self.asked.push(format!("overwritten {}", at));
                    Reply::Done(Ok(()))
                }
                _ => self.plain(&act).unwrap(),
            };
            match secure_delete(op, reply) {
                Progress::Running(next) => op = next,
                Progress::Finished(r) => return r,
            }
        }
    }

    fn encrypt_file(&mut self, path: &[u8], key: &SecureKey) -> Done {
        let mut op = EncryptFile::begin(path);
        let mut source = Vec::new();
        let mut output = String::new();
        loop {
            let act = op.action();
            let reply = match &act {
                Action::OpenSource(p) => {
                    self.asked.push(format!("open {}", s(p)));
                    match self.file(&s(p)) {
                        Some(content) => {
                            source = content.to_vec();
                            Reply::Done(Ok(()))
                        }
                        None => Reply::Done(Err("not found".to_string())),
                    }
                }
                Action::CreateOutput(p) => {
                    self.asked.push(format!("create {}", s(p)));
                    if self.failing("create") {
                        Reply::Done(Err("injected".to_string()))
                    } else {
                        output = s(p);
                        self.nodes.insert(output.clone(), Node::File(Vec::new()));
                        Reply::Done(Ok(()))
                    }
                }
                Action::EncryptInto(name, bar) => {
                    self.asked.push(format!("encrypt {} {:?}", name, bar));
                    let mut out = Vec::new();
                    let r = encrypt_stream(&source, &mut out, key, name, &mut Vec::new());
                    self.nodes.insert(output.clone(), Node::File(out));
                    if self.failing("encrypt") {
                        Reply::Outcome(Err(FileError::Io("disk full".to_string())))
                    } else {
                        Reply::Outcome(r.map_err(FileError::Crypto))
                    }
                }
                Action::SyncOutput => {
                    self.asked.push("sync".to_string());
                    if self.failing("sync") {
                        Reply::Done(Err("injected".to_string()))
                    } else {
                        Reply::Done(Ok(()))
                    }
                }
                Action::SecureDelete(p) => Reply::Outcome(self.secure_delete(p)),
                _ => self.plain(&act).unwrap(),
            };
            let (next, say) = encrypt_file(op, reply);
            self.note(say, &Vec::new());
            match next {
                Progress::Running(next) => op = next,
                Progress::Finished(r) => return r,
            }
        }
    }

    fn decrypt_file(&mut self, path: &[u8], key: &SecureKey) -> Done {
        let (mut op, say) = DecryptFile::begin(path);
        self.note(Some(say), &Vec::new());
        let mut source = Vec::new();
        let mut output = String::new();
        let mut decryptor = None;
        loop {
            let act = op.action();
            let reply = match &act {
                Action::OpenSource(p) => match self.file(&s(p)) {
                    Some(content) => {
                        source = content.to_vec();
                        Reply::Done(Ok(()))
                    }
                    None => Reply::Done(Err("not found".to_string())),
                },
                Action::ReadHeader => match StreamDecryptor::open(&source, key) {
                    Ok((d, name, used)) => {
                        decryptor = Some(d);
                        source = source[used..].to_vec();
                        Reply::Name(Ok(name))
                    }
                    Err(e) => Reply::Name(Err(FileError::Crypto(e))),
                },
                Action::CreateOutput(p) => {
                    output = s(p);
                    self.asked.push(format!("create {}", output));
                    self.nodes.insert(output.clone(), Node::File(Vec::new()));
                    Reply::Done(Ok(()))
                }
                Action::DecryptInto => {
                    let mut out = Vec::new();
                    let d = decryptor.take().unwrap();
                    let r = d.decrypt_body(&source, &mut out, &mut Vec::new());
                    self.nodes.insert(output.clone(), Node::File(out));
                    Reply::Outcome(r.map_err(FileError::Crypto))
                }
                Action::SyncOutput => Reply::Done(Ok(())),
                Action::SecureDelete(p) => Reply::Outcome(self.secure_delete(p)),
                _ => self.plain(&act).unwrap(),
            };
            let (next, say) = decrypt_file(op, reply);
            self.note(say, &Vec::new());
            match next {
                Progress::Running(next) => op = next,
                Progress::Finished(r) => return r,
            }
        }
    }

    fn encrypt_directory(&mut self, path: &[u8], key: &SecureKey, depth: usize) -> Done {
        let mut op = match EncryptDirectory::begin(path, depth) {
            Progress::Running(op) => op,
            Progress::Finished(r) => return r,
        };
        loop {
            let act = op.action();
            let reply = match &act {
                Action::EncryptFile(p) => Reply::Outcome(self.encrypt_file(p, key)),
                Action::EncryptDirectory(p, d) => {
                    Reply::Outcome(self.encrypt_directory(p, key, *d))
                }
                _ => self.plain(&act).unwrap(),
            };
            let (next, say) = encrypt_directory_recursive(op, reply, key);
            self.note(say, &Vec::new());
            match next {
                Progress::Running(next) => op = next,
                Progress::Finished(r) => return r,
            }
        }
    }

    fn decrypt_directory(
        &mut self,
        path: &[u8],
        key: &SecureKey,
        stats: &mut EncryptionStats,
        depth: usize,
    ) -> Done {
        let mut op: DecryptDirectory<Vec<u8>, Vec<Vec<u8>>> =
            match begin_directory_decryption(path, depth, stats) {
                Progress::Running(op) => op,
                Progress::Finished(r) => return r,
            };
        loop {
            let act = op.action();
            let reply = match &act {
                Action::DecryptFile(p) => Reply::Outcome(self.decrypt_file(p, key)),
                Action::DecryptDirectory(p, d) => {
                    Reply::Outcome(self.decrypt_directory(p, key, stats, *d))
                }
                Action::SecureDelete(p) => Reply::Outcome(self.secure_delete(p)),
                _ => self.plain(&act).unwrap(),
            };
            let (next, say) = decrypt_directory_recursive(op, reply, key, stats);
            self.note(say, &stats.errors);
            match next {
                Progress::Running(next) => op = next,
                Progress::Finished(r) => return r,
            }
        }
    }

    fn encrypt_command(&mut self, path: &str) -> Done {
        let mut op = EncryptCommand::begin(path.as_bytes());
        loop {
            let act = op.action();
            let key = op.key().map(|k| SecureKey::new(*k.as_bytes()));
            let reply = match &act {
                Action::EncryptFile(p) => Reply::Outcome(self.encrypt_file(p, &key.unwrap())),
                Action::EncryptDirectory(p, d) => {
                    Reply::Outcome(self.encrypt_directory(p, &key.unwrap(), *d))
                }
                _ => self.plain(&act).unwrap(),
            };
            let (next, say) = encrypt_entry_point(op, reply);
            self.note(say, &Vec::new());
            match next {
                Progress::Running(next) => op = next,
                Progress::Finished(r) => return r,
            }
        }
    }

    fn decrypt_command(&mut self, path: &str, key_file: &str) -> (Done, EncryptionStats) {
        let mut stats = EncryptionStats::new();
        let mut op = DecryptCommand::begin(path.as_bytes(), key_file.as_bytes());
        loop {
            let act = op.action();
            let key = op.key().map(|k| SecureKey::new(*k.as_bytes()));
            let reply = match &act {
                Action::DecryptFile(p) => Reply::Outcome(self.decrypt_file(p, &key.unwrap())),
                Action::DecryptDirectory(p, d) => {
                    Reply::Outcome(self.decrypt_directory(p, &key.unwrap(), &mut stats, *d))
                }
                Action::SecureDelete(p) => Reply::Outcome(self.secure_delete(p)),
                _ => self.plain(&act).unwrap(),
            };
            let (next, say) = decrypt_entry_point(op, reply, &mut stats);
            self.note(say, &stats.errors);
            match next {
                Progress::Running(next) => op = next,
                Progress::Finished(r) => return (r, stats),
            }
        }
    }
}

fn key() -> SecureKey {
    SecureKey::new([42u8; 32])
}

fn container(name: &str, content: &[u8]) -> Vec<u8> {
    let mut out = Vec::new();
    encrypt_stream_with_salt(content, &mut out, &key(), name, &[1u8; 16], &mut Vec::new()).unwrap();
    out
}

fn text(r: Done) -> String {
    match r {
        Ok(()) => "ok".to_string(),
        Err(e) => e.message(),
    }
}

fn only_ciphertext(world: &World, dir: &str) -> String {
    let files = world.files();
    assert_eq!(files.len(), 1, "{:?}", files);
    let path = files[0].0;
    assert_eq!(parent_of(path), dir);
    let name = path.rsplit('/').next().unwrap();
    assert_eq!(name.len(), 20);
    assert!(name.ends_with(".enc"));
    path.to_string()
}

#[test]
fn deleted_file_is_overwritten_first() {
    let mut world = World::with(&[("d/f", &[7u8; 10])]);
    assert_eq!(text(world.secure_delete(b"d/f")), "ok");
    assert_eq!(world.asked, ["stat d/f", "overwrite d/f", "overwritten 10", "remove d/f"]);
    assert!(world.file("d/f").is_none());
}

#[test]
fn large_file_is_overwritten_in_pieces() {
    let len = 2 * OVERWRITE_PIECE + 5;
    let mut op = SecureDelete::begin(b"f");
    let mut pieces = Vec::new();
    loop {
        let reply = match op.action() {
            Action::Stat(_) => Reply::Meta(Ok((FileKind::File, len))),
            Action::Overwrite(noise) => {
                assert!(noise.iter().any(|b| *b != 0));
                pieces.push(noise.len() as u64);
                Reply::Done(Ok(()))
            }
            _ => Reply::Done(Ok(())),
        };
        match secure_delete(op, reply) {
            Progress::Running(next) => op = next,
            Progress::Finished(r) => {
                assert!(r.is_ok());
                break;
            }
        }
    }
    assert_eq!(pieces, vec![OVERWRITE_PIECE, OVERWRITE_PIECE, 5]);
}

#[test]
fn empty_file_is_only_synced_and_removed() {
    let op = SecureDelete::begin(b"f");
    let reply = Reply::Meta(Ok((FileKind::File, 0)));
    let op = match secure_delete_with(op, reply, Vec::new()) {
        Progress::Running(op) => op,
        Progress::Finished(_) => panic!("ended"),
    };
    assert!(matches!(op.action(), Action::OpenForOverwrite(_)));
    match secure_delete_with(op, Reply::Done(Ok(())), Vec::new()) {
        Progress::Running(op) => assert!(matches!(op.action(), Action::SyncOverwritten)),
        Progress::Finished(_) => panic!("ended"),
    }
}

#[test]
fn deleted_link_is_only_removed() {
    let mut world = World::default();
    world.nodes.insert("l".to_string(), Node::Link);
    assert_eq!(text(world.secure_delete(b"l")), "ok");
    assert_eq!(world.asked, ["stat l", "remove l"]);
}

#[test]
fn deletion_that_fails_keeps_the_file() {
    let mut world = World::with(&[("f", b"abc")]);
    world.fail = Some("overwrite");
    assert_eq!(text(world.secure_delete(b"f")), "injected");
    assert_eq!(world.file("f"), Some(&b"abc"[..]));
    assert_eq!(text(World::default().secure_delete(b"x")), "not found");
}

#[test]
fn progress_is_shown_above_a_mebibyte() {
    assert_eq!(progress_bar(1024 * 1024), None);
    assert_eq!(progress_bar(1024 * 1024 + 1), Some(1048577));
    assert_eq!(progress_bar(0), None);
}

#[test]
fn encrypted_file_takes_the_place_of_the_file() {
    let mut world = World::with(&[("dir/report.pdf", b"secret")]);
    assert_eq!(text(world.encrypt_file(b"dir/report.pdf", &key())), "ok");
    let path = only_ciphertext(&world, "dir");
    assert_eq!(
        world.said,
        ["Encrypting: dir/report.pdf", "Done: File encrypted and integrity secured."]
    );
    assert_eq!(text(world.decrypt_file(path.as_bytes(), &key())), "ok");
    assert_eq!(world.files(), vec![("dir/report.pdf", &b"secret"[..])]);
    assert_eq!(world.said[2..], [format!("Processing: {}", path), "Restored and Verified: report.pdf".to_string()]);
}

#[test]
fn encryption_goes_through_its_steps_in_order() {
    let mut world = World::with(&[("f.txt", b"abc")]);
    world.encrypt_file(b"f.txt", &key()).unwrap();
    let path = only_ciphertext(&world, "");
    assert_eq!(
        world.asked,
        [
            "stat f.txt".to_string(),
            format!("taken {}", path),
            "open f.txt".to_string(),
            format!("create {}", path),
            "encrypt f.txt None".to_string(),
            "sync".to_string(),
            "stat f.txt".to_string(),
            "overwrite f.txt".to_string(),
            "overwritten 3".to_string(),
            "remove f.txt".to_string(),
        ]
    );
}

#[test]
fn link_is_skipped() {
    let mut world = World::default();
    world.nodes.insert("dir/link".to_string(), Node::Link);
    assert_eq!(text(world.encrypt_file(b"dir/link", &key())), "ok");
    assert_eq!(world.asked, ["stat dir/link"]);
    assert_eq!(world.said, ["Skipping symlink: dir/link"]);
}

#[test]
fn failed_encryption_leaves_the_file_alone() {
    let mut world = World::with(&[("f", b"abc")]);
    world.fail = Some("encrypt");
    assert_eq!(text(world.encrypt_file(b"f", &key())), "disk full");
    assert_eq!(world.files(), vec![("f", &b"abc"[..])]);
    assert!(world.asked.last().unwrap().starts_with("remove "));
}

#[test]
fn file_is_kept_when_the_ciphertext_is_not_on_the_disk() {
    for fail in ["sync", "create"] {
        let mut world = World::with(&[("f", b"abc")]);
        world.fail = Some(fail);
        assert_eq!(text(world.encrypt_file(b"f", &key())), "injected");
        assert_eq!(world.file("f"), Some(&b"abc"[..]));
    }
}

#[test]
fn name_too_long_for_the_container_is_refused() {
    let name = "n".repeat(4090);
    let mut world = World::with(&[(&name, b"abc")]);
    assert_eq!(
        text(world.encrypt_file(name.as_bytes(), &key())),
        "Filename too long to store in metadata"
    );
    assert_eq!(world.files(), vec![(&name[..], &b"abc"[..])]);
}

#[test]
fn taken_ciphertext_names_are_tried_again() {
    let mut world = World::with(&[("f", b"abc")]);
    world.taken = 63;
    assert_eq!(text(world.encrypt_file(b"f", &key())), "ok");
    let mut world = World::with(&[("f", b"abc")]);
    world.taken = 64;
    assert_eq!(
        text(world.encrypt_file(b"f", &key())),
        "Unable to allocate a unique ciphertext name"
    );
    assert_eq!(world.files(), vec![("f", &b"abc"[..])]);
}

#[test]
fn file_without_a_name_is_refused() {
    let mut world = World::default();
    world.nodes.insert("a/..".to_string(), Node::File(Vec::new()));
    assert_eq!(text(world.encrypt_file(b"a/..", &key())), "Invalid filename");
    assert_eq!(text(world.encrypt_file(b"missing", &key())), "not found");
}

#[test]
fn given_name_is_used_for_the_ciphertext() {
    let op = EncryptFile::begin(b"d/f.txt");
    let reply = Reply::Meta(Ok((FileKind::File, 2_000_000)));
    let (next, _) = encrypt_file_with(op, reply, "0123456789abcdef");
    let mut op = match next {
        Progress::Running(op) => op,
        Progress::Finished(_) => panic!("ended"),
    };
    match op.action() {
        Action::CheckTaken(path) => assert_eq!(path, b"d/0123456789abcdef.enc"),
        other => panic!("{:?}", other),
    }
    for reply in [Reply::Answer(false), Reply::Done(Ok(())), Reply::Done(Ok(()))] {
        op = match encrypt_file_with(op, reply, "x").0 {
            Progress::Running(op) => op,
            Progress::Finished(_) => panic!("ended"),
        };
    }
    match op.action() {
        Action::EncryptInto(name, bar) => {
            assert_eq!(name, "f.txt");
            assert_eq!(bar, Some(2_000_000));
        }
        other => panic!("{:?}", other),
    }
}

#[test]
fn restored_file_overwrites_nothing() {
    let mut world = World::with(&[("report.pdf", b"mine"), ("report_1.pdf", b"too")]);
    world.put("x.enc", &container("report.pdf", b"other"));
    assert_eq!(text(world.decrypt_file(b"x.enc", &key())), "ok");
    assert_eq!(
        world.files(),
        vec![
            ("report.pdf", &b"mine"[..]),
            ("report_1.pdf", &b"too"[..]),
            ("report_2.pdf", &b"other"[..]),
        ]
    );
    assert_eq!(world.said.last().unwrap(), "Restored and Verified: report_2.pdf");
}

#[test]
fn last_variant_is_still_used() {
    let mut world = World::with(&[("f.txt", b"")]);
    for n in 1..9999 {
        world.nodes.insert(format!("f_{}.txt", n), Node::File(Vec::new()));
    }
    world.put("x.enc", &container("f.txt", b"late"));
    assert_eq!(text(world.decrypt_file(b"x.enc", &key())), "ok");
    assert_eq!(world.file("f_9999.txt"), Some(&b"late"[..]));
    assert_eq!(world.file("x.enc"), None);
    world.put("x.enc", &container("f.txt", b"later"));
    assert!(matches!(
        world.decrypt_file(b"x.enc", &key()),
        Err(FileError::TooManyDuplicates)
    ));
    assert!(world.file("x.enc").is_some());
}

#[test]
fn directory_gets_the_first_free_variant() {
    let mut world = World::with(&[("tree/a.txt", b"one")]);
    assert_eq!(text(world.encrypt_directory(b"tree", &key(), 0)), "ok");
    let top = world.nodes.keys().next().unwrap().clone();
    world.put("tree", b"in the way");
    world.put("tree_1", b"too");
    let mut stats = EncryptionStats::new();
    assert_eq!(text(world.decrypt_directory(top.as_bytes(), &key(), &mut stats, 0)), "ok");
    assert_eq!((stats.success, stats.errors.len()), (1, 0));
    assert_eq!(world.file("tree_2/a.txt"), Some(&b"one"[..]));
    assert_eq!(world.file("tree"), Some(&b"in the way"[..]));
}

#[test]
fn names_of_usual_length_can_be_sealed() {
    assert!(can_seal_name(b"some/directory"));
    assert!(can_seal_name(&[0xff; 4096]));
    assert!(can_seal_name(b".."));
    assert!(can_seal_name(b""));
}

#[test]
fn stored_path_does_not_decide_where_content_goes() {
    for name in ["../../etc/passwd", "/etc/passwd", "x/../passwd"] {
        let mut world = World::default();
        world.put("safe/x.enc", &container(name, b"content"));
        assert_eq!(text(world.decrypt_file(b"safe/x.enc", &key())), "ok");
        assert_eq!(world.files(), vec![("safe/passwd", &b"content"[..])]);
    }
    for name in ["..", "/", "", "a/.."] {
        let mut world = World::default();
        world.put("safe/x.enc", &container(name, b"content"));
        assert_eq!(
            text(world.decrypt_file(b"safe/x.enc", &key())),
            "Invalid filename in metadata"
        );
        assert_eq!(world.files().len(), 1);
    }
}

#[test]
fn damaged_container_leaves_nothing_behind() {
    let mut damaged = container("f", b"content");
    let n = damaged.len() - 32;
    damaged.truncate(n);
    let mut world = World::default();
    world.put("d/x.enc", &damaged);
    assert_eq!(text(world.decrypt_file(b"d/x.enc", &key())), "failed to fill whole buffer");
    assert_eq!(world.files(), vec![("d/x.enc", &damaged[..])]);
    assert!(world.asked.iter().any(|a| a.starts_with("create d/.") && a.ends_with(".tmp")));
}

#[test]
fn wrong_key_creates_nothing() {
    let mut world = World::default();
    world.put("x.enc", &container("f", b"content"));
    let r = world.decrypt_file(b"x.enc", &SecureKey::new([1u8; 32]));
    assert_eq!(text(r), "Decryption failed (Metadata): Wrong key or corrupt header");
    assert_eq!(world.files().len(), 1);
    assert!(world.asked.is_empty());
}

#[test]
fn content_that_cannot_be_placed_is_deleted() {
    let mut world = World::default();
    world.put("x.enc", &container("f", b"content"));
    world.fail = Some("rename");
    assert_eq!(
        text(world.decrypt_file(b"x.enc", &key())),
        "Failed to rename temp file to final destination: injected"
    );
    assert_eq!(world.files().len(), 1);
    assert!(world.file("x.enc").is_some());
}

#[test]
fn directory_comes_back_whole() {
    let mut world = World::with(&[
        ("tree/first.txt", b"one"),
        ("tree/sub dir/second.txt", b"two"),
        ("tree/sub dir/deeper/third.txt", b"three"),
    ]);
    world.nodes.insert("tree/link".to_string(), Node::Link);
    let before = world.nodes.clone();
    assert_eq!(text(world.encrypt_directory(b"tree", &key(), 0)), "ok");
    assert!(world.said.contains(&"Skipping symlink: tree/link".to_string()));
    for path in world.nodes.keys() {
        for name in ["tree", "first", "second", "third", "sub dir", "deeper"] {
            assert!(!path.contains(name), "{}", path);
        }
    }
    let top = world.nodes.keys().next().unwrap().clone();
    assert_eq!(top.len(), 16);
    assert_eq!(world.said.last().unwrap(), &format!("Encrypted Dir: tree -> {}", top));
    let mut stats = EncryptionStats::new();
    assert_eq!(text(world.decrypt_directory(top.as_bytes(), &key(), &mut stats, 0)), "ok");
    assert_eq!((stats.success, stats.errors.len()), (3, 0));
    assert_eq!(world.nodes, before);
    assert!(world.said.contains(&"Restored Dir: tree".to_string()));
}

#[test]
fn first_error_stops_the_encryption_of_a_directory() {
    let mut world = World::with(&[("d/a", b"1"), ("d/b", b"2")]);
    world.fail = Some("encrypt");
    assert_eq!(text(world.encrypt_directory(b"d", &key(), 0)), "disk full");
    assert_eq!(world.files(), vec![("d/a", &b"1"[..]), ("d/b", &b"2"[..])]);
    world.fail = Some("list");
    assert_eq!(text(world.encrypt_directory(b"d", &key(), 0)), "injected");
    world.fail = Some("rename");
    let mut empty = World::default();
    empty.nodes.insert("e".to_string(), Node::Directory);
    empty.fail = Some("rename");
    assert_eq!(text(empty.encrypt_directory(b"e", &key(), 0)), "injected");
}

#[test]
fn directories_too_deep_are_refused() {
    let mut world = World::with(&[("d/a", b"1")]);
    assert_eq!(
        text(world.encrypt_directory(b"d", &key(), 51)),
        "Directory depth limit exceeded at d"
    );
    assert!(world.asked.is_empty());
    let mut stats = EncryptionStats::new();
    assert_eq!(text(world.decrypt_directory(b"d", &key(), &mut stats, 51)), "ok");
    assert_eq!(stats.errors, ["Recursion limit reached at d"]);
    assert_eq!(text(world.encrypt_directory(b"d", &key(), 50)), "ok");
}

#[test]
fn directory_without_a_name_is_refused() {
    let mut world = World::default();
    world.nodes.insert("a/..".to_string(), Node::Directory);
    assert_eq!(text(world.encrypt_directory(b"a/..", &key(), 0)), "Invalid directory name");
}

#[test]
fn other_things_in_a_directory_are_left_alone() {
    let mut world = World::with(&[("d/plain.txt", b"x"), ("d/.dirname.enc", b"y")]);
    world.put("d/good.enc", &container("good", b"z"));
    world.nodes.insert("d/link.enc".to_string(), Node::Link);
    let mut stats = EncryptionStats::new();
    assert_eq!(text(world.decrypt_directory(b"d", &key(), &mut stats, 0)), "ok");
    assert_eq!(stats.success, 1);
    assert_eq!(stats.errors, ["Failed to decrypt directory d: Data too short"]);
    assert_eq!(world.file("d/good"), Some(&b"z"[..]));
    assert_eq!(world.file("d/plain.txt"), Some(&b"x"[..]));
    assert_eq!(world.file("d/.dirname.enc"), Some(&b"y"[..]));
    assert_eq!(world.nodes.get("d/link.enc"), Some(&Node::Link));
}

#[test]
fn one_bad_payload_does_not_stop_the_rest() {
    let mut world = World::with(&[("d/bad.enc", b"nonsense")]);
    world.put("d/good.enc", &container("good", b"z"));
    let mut stats = EncryptionStats::new();
    assert_eq!(text(world.decrypt_directory(b"d", &key(), &mut stats, 0)), "ok");
    assert_eq!(stats.success, 1);
    assert_eq!(stats.errors, ["File d/bad.enc: File too small"]);
    assert_eq!(world.file("d/good"), Some(&b"z"[..]));
}

#[test]
fn counted_payloads_are_accounted_for() {
    let marker = encrypt::crypto::simple_encrypt_data(b"named", &key()).unwrap();
    let mut world = World::with(&[
        ("d/bad.enc", b"nonsense"),
        ("d/note.txt", b"plain"),
        ("d/sub/worse.enc", b""),
        ("d/sub/.dirname.enc", &marker),
    ]);
    world.put("d/good.enc", &container("good", b"z"));
    world.put("d/sub/better.enc", &container("better", b"y"));
    world.nodes.insert("d/link.enc".to_string(), Node::Link);
    let entries: Vec<TreeEntry> = world
        .nodes
        .iter()
        .map(|(path, node)| TreeEntry {
            path: path.as_bytes().to_vec(),
            is_file: matches!(node, Node::File(_)),
        })
        .collect();
    let counted = count_encrypted_payloads(&entries);
    assert_eq!(counted, 4);
    let mut stats = EncryptionStats::new();
    assert_eq!(text(world.decrypt_directory(b"d", &key(), &mut stats, 0)), "ok");
    assert_eq!(stats.success, 2);
    assert_eq!(stats.errors.iter().filter(|line| line.starts_with("File ")).count(), 2);
    assert_eq!(stats.errors.len(), 2);
    assert_eq!(world.file("d/named/better"), Some(&b"y"[..]));
    assert_eq!(world.file("d/note.txt"), Some(&b"plain"[..]));
    assert_eq!(world.nodes.get("d/link.enc"), Some(&Node::Link));
}

#[test]
fn unreadable_directory_is_recorded() {
    let mut world = World::with(&[("d/a.enc", b"")]);
    world.fail = Some("list");
    let mut stats = EncryptionStats::new();
    assert_eq!(text(world.decrypt_directory(b"d", &key(), &mut stats, 0)), "ok");
    assert_eq!(stats.errors, ["Cannot read dir d: injected"]);
    world.fail = Some("stat");
    let mut stats = EncryptionStats::new();
    assert_eq!(text(world.decrypt_directory(b"d", &key(), &mut stats, 0)), "ok");
    assert_eq!(stats.errors, ["Cannot read metadata d/a.enc: injected"]);
}

#[test]
fn stored_directory_name_is_reduced_too() {
    let marker = |name: &[u8]| {
        encrypt::crypto::simple_encrypt_data(name, &key()).unwrap()
    };
    let mut world = World::with(&[("in/d/.dirname.enc", &marker(b"../../evil"))]);
    let mut stats = EncryptionStats::new();
    assert_eq!(text(world.decrypt_directory(b"in/d", &key(), &mut stats, 0)), "ok");
    assert_eq!(world.nodes.get("in/evil"), Some(&Node::Directory));
    assert!(world.files().is_empty());
    let mut world = World::with(&[("d/.dirname.enc", &marker(b".."))]);
    let r = world.decrypt_directory(b"d", &key(), &mut EncryptionStats::new(), 0);
    assert_eq!(text(r), "Invalid directory name in metadata");
    let mut world = World::with(&[("d/.dirname.enc", &marker(&[0xff]))]);
    let r = world.decrypt_directory(b"d", &key(), &mut EncryptionStats::new(), 0);
    assert_eq!(text(r), "Invalid UTF-8 in directory name");
    let mut world = World::with(&[("d/.dirname.enc", &marker(b"x"))]);
    world.fail = Some("read");
    let r = world.decrypt_directory(b"d", &key(), &mut EncryptionStats::new(), 0);
    assert_eq!(text(r), "injected");
}

#[test]
fn marker_that_stays_is_warned_about() {
    let name = encrypt::crypto::simple_encrypt_data(b"x", &key()).unwrap();
    let mut world = World::with(&[("d/.dirname.enc", &name)]);
    world.fail = Some("overwrite");
    let mut stats = EncryptionStats::new();
    assert_eq!(text(world.decrypt_directory(b"d", &key(), &mut stats, 0)), "ok");
    assert_eq!(
        world.errors,
        ["Warning: Failed to securely delete marker x/.dirname.enc: injected"]
    );
    assert_eq!(world.said, ["Restored Dir: x"]);
    assert_eq!(stats.errors, ["Failed to securely delete marker x/.dirname.enc: injected"]);
}

#[test]
fn payloads_are_counted_without_markers() {
    let entry = |path: &str, is_file| TreeEntry { path: path.as_bytes().to_vec(), is_file };
    let entries = vec![
        entry("d", false),
        entry("d/.dirname.enc", true),
        entry("d/a.enc", true),
        entry("d/b.ENC", true),
        entry("d/c.enc", false),
        entry("d/.enc", true),
        entry("d/e/f.tar.enc", true),
    ];
    assert_eq!(count_encrypted_payloads(&entries), 2);
    assert_eq!(count_encrypted_payloads(&Vec::new()), 0);
}

#[test]
fn stats_begin_at_zero() {
    for stats in [EncryptionStats::new(), EncryptionStats::default()] {
        assert_eq!((stats.total, stats.success, stats.errors.len()), (0, 0, 0));
    }
}

#[test]
fn troubles_are_reported() {
    let path = || b"p".to_vec();
    let e = || FileError::Crypto(CryptoError::DecryptData);
    let shown = |t: Trouble<Vec<u8>, String>| trouble_text(&t);
    assert_eq!(shown(Trouble::TooDeep(path())), "Recursion limit reached at p");
    assert_eq!(
        shown(Trouble::DirectoryName(path(), e())),
        "Failed to decrypt directory p: Decryption failed"
    );
    assert_eq!(shown(Trouble::File(b"\xff".to_vec(), e())), "File \u{fffd}: Decryption failed");
}

#[test]
fn arguments_are_parsed() {
    let parse = |args: &[&str]| parse_args(&args.iter().map(|a| a.to_string()).collect());
    assert!(matches!(parse(&["encrypt", "encrypt", "x"]), Command::Encrypt(p) if p == "x"));
    assert!(matches!(
        parse(&["e", "decrypt", "x", "k", "more"]),
        Command::Decrypt(p, k) if p == "x" && k == "k"
    ));
    assert!(matches!(parse(&["e", "decrypt", "x"]), Command::MissingKeyFile));
    assert!(matches!(parse(&["e", "Encrypt", "x"]), Command::Unknown));
    assert!(matches!(parse(&["e", "encrypt"]), Command::Usage(p) if p == "e"));
    assert!(matches!(parse(&["e"]), Command::Usage(_)));
}

#[test]
fn arguments_are_complained_about() {
    assert_eq!(
        complaint(&Command::Usage("encrypt".to_string())).unwrap(),
        "Usage:\n  Encrypt: encrypt encrypt <path>\n  Decrypt: encrypt decrypt <path> <keyfile>"
    );
    assert_eq!(
        complaint(&Command::MissingKeyFile).unwrap(),
        "Error: Please specify the .key file for decryption."
    );
    assert_eq!(
        complaint(&Command::Unknown).unwrap(),
        "Invalid command. Use 'encrypt' or 'decrypt'."
    );
    assert_eq!(complaint(&Command::Encrypt("x".to_string())), None);
}

#[test]
fn passwords_must_not_be_empty() {
    assert_eq!(read_password(Ok("p".to_string())).unwrap(), "p");
    assert_eq!(read_password(Ok(String::new())).unwrap_err().message(), "Password cannot be empty");
    assert_eq!(read_password(Err("no tty".to_string())).unwrap_err().message(), "no tty");
}

#[test]
fn key_file_stands_next_to_its_target() {
    assert_eq!(key_path(b"/srv/data/report.pdf", false), b"/srv/data/report.key");
    assert_eq!(key_path(b"report", false), b"report.key");
    assert_eq!(key_path(b"./documents", true), b"./documents.key");
    assert_eq!(key_path(b"a/b.c/", true), b"a/b.key");
    assert_eq!(key_path(b"/", true), b"/");
    assert_eq!(key_path(b"a/..", false), b"a/..");
}

#[test]
fn file_goes_through_both_commands() {
    let mut world = World::with(&[("data/report.pdf", b"secret")]);
    world.passwords = VecDeque::from(vec!["pass word".to_string(), "pass word".to_string()]);
    assert_eq!(text(world.encrypt_command("data/report.pdf")), "ok");
    assert!(world.asked.contains(&"key data/report.key 600".to_string()));
    assert_eq!(
        world.said[0],
        "Master Key saved to: data/report.key\n\
         IMPORTANT: Keep this key safe. You cannot recover data without it."
    );
    let paths: Vec<String> = world.files().iter().map(|f| f.0.to_string()).collect();
    assert_eq!(paths.len(), 2);
    let enc = paths.iter().find(|p| p.ends_with(".enc")).unwrap().clone();

    world.passwords = VecDeque::from(vec!["wrong".to_string()]);
    let (r, _) = world.decrypt_command(&enc, "data/report.key");
    assert_eq!(text(r), "Wrong password or corrupted key");
    assert_eq!(world.files().len(), 2);

    world.said.clear();
    world.passwords = VecDeque::from(vec!["pass word".to_string()]);
    let (r, stats) = world.decrypt_command(&enc, "data/report.key");
    assert_eq!(text(r), "ok");
    assert_eq!((stats.total, stats.success), (1, 1));
    assert_eq!(world.files(), vec![("data/report.pdf", &b"secret"[..])]);
    assert_eq!(world.said[0], "Password correct. Starting decryption...");
    assert_eq!(
        world.said[3..],
        ["\nVerification: All operations successful.", "SUCCESS: Key file deleted securely."]
    );
}

#[test]
fn directory_goes_through_both_commands() {
    let mut world = World::with(&[("docs/a", b"1"), ("docs/in/b", b"2")]);
    world.passwords = VecDeque::from(vec!["pw".to_string(), "pw".to_string()]);
    assert_eq!(text(world.encrypt_command("docs")), "ok");
    assert!(world.file("docs.key").is_some());
    let top = world.nodes.keys().find(|p| !p.contains('/') && *p != "docs.key").unwrap().clone();
    world.passwords = VecDeque::from(vec!["pw".to_string()]);
    let (r, stats) = world.decrypt_command(&top, "docs.key");
    assert_eq!(text(r), "ok");
    assert_eq!((stats.total, stats.success), (2, 2));
    assert_eq!(world.files(), vec![("docs/a", &b"1"[..]), ("docs/in/b", &b"2"[..])]);
}

#[test]
fn key_is_kept_when_something_went_wrong() {
    let mut world = World::with(&[("d/a", b"1")]);
    world.passwords = VecDeque::from(vec!["pw".to_string(), "pw".to_string(), "pw".to_string()]);
    assert_eq!(text(world.encrypt_command("d")), "ok");
    let top = world.nodes.keys().find(|p| !p.contains('/') && *p != "d.key").unwrap().clone();
    world.put(&format!("{}/bad.enc", top), b"nonsense");
    let (r, stats) = world.decrypt_command(&top, "d.key");
    assert_eq!(text(r), "ok");
    assert_eq!((stats.total, stats.success, stats.errors.len()), (2, 1, 1));
    assert!(world.file("d.key").is_some());
    assert_eq!(
        world.said.last().unwrap(),
        "\nERRORS encountered:\n - File d/bad.enc: File too small\n\n\
         WARNING: Key file was NOT deleted because errors occurred."
    );
}

#[test]
fn differing_passwords_change_nothing() {
    let mut world = World::with(&[("f", b"abc")]);
    world.passwords = VecDeque::from(vec!["one".to_string(), "two".to_string()]);
    assert_eq!(text(world.encrypt_command("f")), "Passwords do not match");
    assert_eq!(world.files(), vec![("f", &b"abc"[..])]);
    assert_eq!(
        world.asked,
        ["exists f", "Enter password to protect the key: ", "Confirm password: "]
    );
    world.passwords = VecDeque::from(vec![String::new()]);
    assert_eq!(text(world.encrypt_command("f")), "Password cannot be empty");
}

#[test]
fn key_file_overwrites_nothing() {
    let mut world = World::with(&[("f.txt", b"abc"), ("f.key", b"older")]);
    world.passwords = VecDeque::from(vec!["pw".to_string(), "pw".to_string()]);
    assert_eq!(text(world.encrypt_command("f.txt")), "ok");
    assert_eq!(world.file("f.key"), Some(&b"older"[..]));
    assert!(world.file("f_1.key").is_some());
}

#[test]
fn nothing_is_encrypted_without_a_key_file() {
    let mut world = World::with(&[("f", b"abc")]);
    world.passwords = VecDeque::from(vec!["pw".to_string(), "pw".to_string()]);
    world.fail = Some("key");
    assert_eq!(text(world.encrypt_command("f")), "injected");
    assert_eq!(world.files(), vec![("f", &b"abc"[..])]);
}

#[test]
fn failed_encryption_is_shown_and_the_key_stays() {
    let mut world = World::with(&[("f", b"abc")]);
    world.passwords = VecDeque::from(vec!["pw".to_string(), "pw".to_string()]);
    world.fail = Some("encrypt");
    assert_eq!(text(world.encrypt_command("f")), "ok");
    assert_eq!(world.errors, ["Encryption failed: disk full"]);
    assert!(world.file("f.key").is_some());
}

#[test]
fn targets_of_other_kinds_are_refused() {
    let mut world = World::default();
    world.nodes.insert("l".to_string(), Node::Link);
    world.passwords = VecDeque::from(vec!["pw".to_string(), "pw".to_string(), "pw".to_string()]);
    assert_eq!(text(world.encrypt_command("l")), "ok");
    assert_eq!(world.errors, ["Target is neither a regular file nor a directory."]);
    let (r, _) = world.decrypt_command("l", "l.key");
    assert_eq!(text(r), "Target type not supported");
}

#[test]
fn missing_paths_are_refused() {
    let mut world = World::with(&[("f", b"abc")]);
    assert_eq!(text(world.encrypt_command("missing")), "Path does not exist");
    assert_eq!(text(world.decrypt_command("missing", "f").0), "Target path or key file not found");
    assert_eq!(text(world.decrypt_command("f", "missing").0), "Target path or key file not found");
}

#[test]
fn key_file_of_an_odd_directory_lies_next_to_it() {
    assert_eq!(key_path(b"a/b/..x", true), b"a/b/..key");
    assert_eq!(key_path(b"a/b/...", true), b"a/b/...key");
    assert_eq!(key_path(b"a/b/..x", false), b"a/b/..key");
}

#[test]
fn names_that_are_not_text_come_back_replaced() {
    let mut op = EncryptFile::begin(b"d/\xffx");
    let replies = [
        Reply::Meta(Ok((FileKind::File, 1))),
        Reply::Answer(false),
        Reply::Done(Ok(())),
        Reply::Done(Ok(())),
    ];
    for reply in replies {
        op = match encrypt_file(op, reply).0 {
            Progress::Running(op) => op,
            Progress::Finished(_) => panic!("ended"),
        };
    }
    match op.action() {
        Action::EncryptInto(name, None) => assert_eq!(name, "\u{fffd}x"),
        other => panic!("{:?}", other),
    }
}

#[test]
fn key_is_kept_when_a_marker_stays() {
    let mut world = World::with(&[("d/a", b"1")]);
    world.passwords = VecDeque::from(vec!["pw".to_string(), "pw".to_string(), "pw".to_string()]);
    assert_eq!(text(world.encrypt_command("d")), "ok");
    let top = world.nodes.keys().find(|p| !p.contains('/') && *p != "d.key").unwrap().clone();
    let key_file = world.file("d.key").unwrap().to_vec();
    let mut op = DecryptCommand::begin(top.as_bytes(), b"d.key");
    let mut stats = EncryptionStats::new();
    let r = loop {
        let act = op.action();
        let reply = match &act {
            Action::DecryptDirectory(p, d) => {
                let key = SecureKey::new(*op.key().unwrap().as_bytes());
                world.marker_stays = true;
                Reply::Outcome(world.decrypt_directory(p, &key, &mut stats, *d))
            }
            Action::SecureDelete(p) => Reply::Outcome(world.secure_delete(p)),
            _ => world.plain(&act).unwrap(),
        };
        match decrypt_entry_point(op, reply, &mut stats).0 {
            Progress::Running(next) => op = next,
            Progress::Finished(r) => break r,
        }
    };
    assert_eq!(text(r), "ok");
    assert_eq!(stats.errors, ["Failed to securely delete marker d/.dirname.enc: injected"]);
    assert_eq!((stats.total, stats.success), (1, 1));
    assert_eq!(world.file("d.key"), Some(&key_file[..]));
    assert_eq!(world.file("d/a"), Some(&b"1"[..]));
}

#[test]
fn key_is_kept_when_an_entry_cannot_be_read() {
    let mut world = World::with(&[("d/a", b"1")]);
    world.passwords = VecDeque::from(vec!["pw".to_string(), "pw".to_string(), "pw".to_string()]);
    assert_eq!(text(world.encrypt_command("d")), "ok");
    let top = world.nodes.keys().find(|p| !p.contains('/') && *p != "d.key").unwrap().clone();
    world.unread = vec!["bad sector", "stale handle"];
    let (r, stats) = world.decrypt_command(&top, "d.key");
    assert_eq!(text(r), "ok");
    assert_eq!(
        stats.errors,
        ["Cannot read entry of dir d: bad sector", "Cannot read entry of dir d: stale handle"]
    );
    assert_eq!(stats.success, 1);
    assert!(world.file("d.key").is_some());
}

#[test]
fn link_that_leads_nowhere_is_not_replaced() {
    let mut world = World::default();
    world.put("x.enc", &container("report.pdf", b"content"));
    world.nodes.insert("report.pdf".to_string(), Node::Link);
    world.dangling = true;
    assert_eq!(text(world.decrypt_file(b"x.enc", &key())), "ok");
    assert_eq!(world.nodes.get("report.pdf"), Some(&Node::Link));
    assert_eq!(world.file("report_1.pdf"), Some(&b"content"[..]));
}
