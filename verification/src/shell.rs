//! The shell over the document tree: the current-directory navigator and
//! the command interpreter, with the modification flag that decides
//! whether the session's changes are pushed back.

use vstd::prelude::*;
use crate::text::is_strict_prefix;
use crate::text::is_strict_prefix_exec;
use crate::text::is_up_token;
use crate::text::push_char;
use crate::text::spec_is_up_token;
use crate::text::spec_split;
use crate::text::split_char;
use crate::text::str_eq;
use crate::text::string_views;
use crate::tree::entry_model;
use crate::tree::lemma_entries_wf_push;
use crate::tree::lemma_entries_wf_remove;
use crate::tree::lemma_entries_wf_update;
use crate::tree::lemma_pairs_model_push;
use crate::tree::lemma_pairs_model_remove;
use crate::tree::lemma_pairs_model_update;
use crate::tree::pairs_model;
use crate::tree::FileOrDirectory;
use crate::tree::FileSystem;
use crate::tree::Node;
use crate::tree::dir_at;
use crate::tree::dir_children;
use crate::tree::dir_children_mut;
use crate::tree::entries_model;
use crate::tree::entries_wf;
use crate::tree::find_entry;
use crate::tree::fs_model;
use crate::tree::has_name;
use crate::tree::index_of_name;
use crate::tree::lemma_found_index;
use crate::tree::lemma_replace_dir_at;
use crate::tree::lemma_resolves_snoc;
use crate::tree::lemma_resolves_take;
use crate::tree::lookup_name;
use crate::tree::replace_dir_at;
use crate::tree::resolves;

verus! {

/// Outcome of one interpreted command line.
#[derive(PartialEq, Eq, Structural, Debug, Clone, Copy)]
pub enum CommandResult {
    Okay,
    NotFound,
    BadArgs,
    Exit,
}

/// The shell state: the tree, the current directory as path segments,
/// the last error line, and the pending-changes flag.
pub struct Supno {
    pub cwd: Vec<String>,
    pub data: FileSystem,
    pub error_message: String,
    pub has_been_modified: bool,
}

/// The named entry exists and is a directory.
pub open spec fn dir_has_dir(m: Seq<(Seq<char>, Node)>, name: Seq<char>) -> bool {
    has_name(m, name) && lookup_name(m, name) is Dir
}

/// The named entry exists and is a file.
pub open spec fn dir_has_file(m: Seq<(Seq<char>, Node)>, name: Seq<char>) -> bool {
    has_name(m, name) && lookup_name(m, name) is File
}

impl Supno {
    /// The model of the whole tree.
    pub open spec fn model(self) -> Seq<(Seq<char>, Node)> {
        fs_model(self.data)
    }

    /// The current directory path, as a sequence of segment names.
    pub open spec fn cwd_model(self) -> Seq<Seq<char>> {
        string_views(self.cwd@)
    }

    /// The shell invariant: names are unique throughout the tree and the
    /// current path resolves to an existing directory.
    pub open spec fn wf(self) -> bool {
        entries_wf(self.model()) && resolves(self.model(), self.cwd_model())
    }

    /// The children of the current directory.
    pub open spec fn cur_dir(self) -> Seq<(Seq<char>, Node)> {
        dir_at(self.model(), self.cwd_model())
    }

    /// A fresh session at the root of `data`, with nothing modified.
    pub fn new(data: FileSystem) -> (r: Supno)
        requires
            entries_wf(fs_model(data)),
        ensures
            r.wf(),
            r.data == data,
            r.cwd@.len() == 0,
            !r.has_been_modified,
            r.error_message@ == Seq::<char>::empty(),
    {
        Supno {
            cwd: Vec::new(),
            data,
            error_message: String::new(),
            has_been_modified: false,
        }
    }

    /// The children of the directory the current path resolves to.
    pub fn get_cwd_data(&self) -> (r: &Vec<(String, FileOrDirectory)>)
        requires
            self.wf(),
        ensures
            entries_model(*r) == self.cur_dir(),
            entries_wf(entries_model(*r)),
    {
        proof {
            assert(string_views(self.cwd@).skip(0) =~= string_views(self.cwd@));
        }
        dir_children(&self.data.entries, &self.cwd, 0)
    }

    /// A mutable borrow of the current directory's children; the final
    /// tree is the old one with those children replaced by what the
    /// caller leaves behind.
    pub fn get_cwd_data_mut(&mut self) -> (r: &mut Vec<(String, FileOrDirectory)>)
        requires
            old(self).wf(),
        ensures
            entries_model(*r) == old(self).cur_dir(),
            fs_model(final(self).data) == replace_dir_at(
                old(self).model(),
                old(self).cwd_model(),
                entries_model(*final(r)),
            ),
            final(self).cwd == old(self).cwd,
            final(self).error_message == old(self).error_message,
            final(self).has_been_modified == old(self).has_been_modified,
    {
        proof {
            assert(string_views(self.cwd@).skip(0) =~= string_views(self.cwd@));
        }
        dir_children_mut(&mut self.data.entries, &self.cwd, 0)
    }

    /// `rm name`: removes the named entry from the current directory and
    /// marks the session modified; fails when the name is absent.
    pub fn remove_item(&mut self, name: &str) -> (r: CommandResult)
        requires
            old(self).wf(),
        ensures
            final(self).wf(),
            final(self).cwd == old(self).cwd,
            final(self).error_message == old(self).error_message,
            has_name(old(self).cur_dir(), name@) ==> {
                &&& r == CommandResult::Okay
                &&& final(self).cur_dir() == old(self).cur_dir().remove(
                    index_of_name(old(self).cur_dir(), name@),
                )
                &&& final(self).model() == replace_dir_at(
                    old(self).model(),
                    old(self).cwd_model(),
                    old(self).cur_dir().remove(index_of_name(old(self).cur_dir(), name@)),
                )
                &&& final(self).has_been_modified
            },
            !has_name(old(self).cur_dir(), name@) ==> r == CommandResult::BadArgs && *final(self)
                == *old(self),
    {
        let ghost m = old(self).model();
        let ghost p = old(self).cwd_model();
        let ghost cur = old(self).cur_dir();
        let found = {
            let dir = self.get_cwd_data();
            find_entry(dir, name)
        };
        match found {
            Some(i) => {
                proof {
                    lemma_found_index(cur, name@, i as int);
                }
                let dir = self.get_cwd_data_mut();
                let ghost dir0 = dir@;
                dir.remove(i);
                proof {
                    lemma_pairs_model_remove(dir0, i as int);
                    lemma_entries_wf_remove(cur, i as int);
                    lemma_replace_dir_at(m, p, cur.remove(i as int));
                }
                self.has_been_modified = true;
                CommandResult::Okay
            },
            None => CommandResult::BadArgs,
        }
    }

    /// `n`/`new name`: creates an empty file under a fresh, non-reserved
    /// name and asks for it to be opened in the editor; the create is a
    /// structural change, so the session becomes modified. Fails,
    /// changing nothing, on a name collision or a reserved name.
    pub fn create_file(&mut self, name: &str) -> (r: (CommandResult, Option<String>))
        requires
            old(self).wf(),
        ensures
            final(self).wf(),
            final(self).cwd == old(self).cwd,
            final(self).error_message == old(self).error_message,
            spec_is_up_token(name@) || has_name(old(self).cur_dir(), name@) ==> r.0
                == CommandResult::BadArgs && r.1 is None && *final(self) == *old(self),
            !spec_is_up_token(name@) && !has_name(old(self).cur_dir(), name@) ==> {
                &&& r.0 == CommandResult::Okay
                &&& r.1 matches Some(n) && n@ == name@
                &&& final(self).cur_dir() == old(self).cur_dir().push(
                    (name@, Node::File(Seq::empty())),
                )
                &&& final(self).model() == replace_dir_at(
                    old(self).model(),
                    old(self).cwd_model(),
                    old(self).cur_dir().push((name@, Node::File(Seq::empty()))),
                )
                &&& final(self).has_been_modified
            },
    {
        let ghost m = old(self).model();
        let ghost p = old(self).cwd_model();
        let ghost cur = old(self).cur_dir();
        if is_up_token(name) {
            return (CommandResult::BadArgs, None);
        }
        let found = {
            let dir = self.get_cwd_data();
            find_entry(dir, name)
        };
        match found {
            Some(i) => {
                proof {
                    assert(cur[i as int].0 == name@);
                    assert(has_name(cur, name@));
                }
                (CommandResult::BadArgs, None)
            },
            None => {
                let dir = self.get_cwd_data_mut();
                let ghost dir0 = dir@;
                dir.push((name.to_owned(), FileOrDirectory::File(String::new())));
                proof {
                    lemma_pairs_model_push(
                        dir0,
                        (dir@[dir0.len() as int].0, dir@[dir0.len() as int].1),
                    );
                    assert(entry_model(dir@[dir0.len() as int].1) == Node::File(
                        Seq::<char>::empty(),
                    ));
                    lemma_entries_wf_push(cur, name@, Node::File(Seq::empty()));
                    lemma_replace_dir_at(m, p, cur.push((name@, Node::File(Seq::empty()))));
                }
                self.has_been_modified = true;
                (CommandResult::Okay, Some(name.to_owned()))
            },
        }
    }

    /// `d`/`mkdir name`: creates an empty directory under a fresh,
    /// non-reserved name, marks the session modified and navigates into
    /// it. Fails, changing nothing, on a name collision or a reserved
    /// name.
    pub fn create_dir(&mut self, name: &str) -> (r: CommandResult)
        requires
            old(self).wf(),
        ensures
            final(self).wf(),
            final(self).error_message == old(self).error_message,
            spec_is_up_token(name@) || has_name(old(self).cur_dir(), name@) ==> r
                == CommandResult::BadArgs && *final(self) == *old(self),
            !spec_is_up_token(name@) && !has_name(old(self).cur_dir(), name@) ==> {
                &&& r == CommandResult::Okay
                &&& final(self).model() == replace_dir_at(
                    old(self).model(),
                    old(self).cwd_model(),
                    old(self).cur_dir().push((name@, Node::Dir(Seq::empty()))),
                )
                &&& final(self).cwd_model() == old(self).cwd_model().push(name@)
                &&& final(self).cur_dir() == Seq::<(Seq<char>, Node)>::empty()
                &&& final(self).has_been_modified
            },
    {
        let ghost m = old(self).model();
        let ghost p = old(self).cwd_model();
        let ghost cur = old(self).cur_dir();
        if is_up_token(name) {
            return CommandResult::BadArgs;
        }
        let found = {
            let dir = self.get_cwd_data();
            find_entry(dir, name)
        };
        match found {
            Some(i) => {
                proof {
                    assert(cur[i as int].0 == name@);
                    assert(has_name(cur, name@));
                }
                CommandResult::BadArgs
            },
            None => {
                let dir = self.get_cwd_data_mut();
                let ghost dir0 = dir@;
                dir.push((name.to_owned(), FileOrDirectory::Directory(Vec::new())));
                proof {
                    lemma_pairs_model_push(
                        dir0,
                        (dir@[dir0.len() as int].0, dir@[dir0.len() as int].1),
                    );
                    assert(pairs_model(Seq::<(String, FileOrDirectory)>::empty())
                        =~= Seq::<(Seq<char>, Node)>::empty());
                    assert(entry_model(dir@[dir0.len() as int].1) == Node::Dir(
                        Seq::<(Seq<char>, Node)>::empty(),
                    ));
                    lemma_entries_wf_push(cur, name@, Node::Dir(Seq::empty()));
                    lemma_replace_dir_at(m, p, cur.push((name@, Node::Dir(Seq::empty()))));
                }
                self.has_been_modified = true;
                let ghost m2 = self.model();
                let ghost newcur = cur.push((name@, Node::Dir(Seq::empty())));
                self.cwd.push(name.to_owned());
                proof {
                    lemma_found_index(newcur, name@, cur.len() as int);
                    lemma_resolves_snoc(m2, p, name@);
                    assert(string_views(self.cwd@) =~= p.push(name@));
                }
                CommandResult::Okay
            },
        }
    }

    /// Commits `content` as the current directory's file `name`: the
    /// entry is updated (or created, when it has gone missing), and the
    /// session becomes modified exactly when it already was or the saved
    /// text differs from the file's previous content.
    pub fn save_file(&mut self, name: &str, content: String) -> (r: CommandResult)
        requires
            old(self).wf(),
        ensures
            final(self).wf(),
            final(self).cwd == old(self).cwd,
            final(self).error_message == old(self).error_message,
            r == CommandResult::Okay,
            has_name(old(self).cur_dir(), name@) ==> {
                &&& final(self).cur_dir() == old(self).cur_dir().update(
                    index_of_name(old(self).cur_dir(), name@),
                    (name@, Node::File(content@)),
                )
                &&& final(self).model() == replace_dir_at(
                    old(self).model(),
                    old(self).cwd_model(),
                    old(self).cur_dir().update(
                        index_of_name(old(self).cur_dir(), name@),
                        (name@, Node::File(content@)),
                    ),
                )
            },
            !has_name(old(self).cur_dir(), name@) ==> {
                &&& final(self).cur_dir() == old(self).cur_dir().push(
                    (name@, Node::File(content@)),
                )
                &&& final(self).model() == replace_dir_at(
                    old(self).model(),
                    old(self).cwd_model(),
                    old(self).cur_dir().push((name@, Node::File(content@))),
                )
            },
            final(self).has_been_modified == (old(self).has_been_modified || !(lookup_name(
                old(self).cur_dir(),
                name@,
            ) matches Node::File(c) && has_name(old(self).cur_dir(), name@) && c == content@)),
    {
        let ghost m = old(self).model();
        let ghost p = old(self).cwd_model();
        let ghost cur = old(self).cur_dir();
        let mut unchanged = false;
        let found = {
            let dir = self.get_cwd_data();
            let f = find_entry(dir, name);
            if let Some(i) = f {
                proof {
                    lemma_found_index(cur, name@, i as int);
                }
                match &dir[i].1 {
                    FileOrDirectory::File(old_text) => {
                        proof {
                            assert(cur[i as int].1 == Node::File(old_text@));
                        }
                        if str_eq(old_text.as_str(), content.as_str()) {
                            unchanged = true;
                        }
                    },
                    FileOrDirectory::Directory(_) => {
                        proof {
                            assert(cur[i as int].1 is Dir);
                        }
                    },
                }
            }
            f
        };
        let dir = self.get_cwd_data_mut();
        let ghost dir0 = dir@;
        match found {
            Some(i) => {
                let e = &mut dir[i];
                e.1 = FileOrDirectory::File(content);
                proof {
                    lemma_pairs_model_update(dir0, i as int, (dir0[i as int].0, FileOrDirectory::File(content)));
                    lemma_entries_wf_update(cur, i as int, Node::File(content@));
                    lemma_replace_dir_at(
                        m,
                        p,
                        cur.update(i as int, (name@, Node::File(content@))),
                    );
                }
            },
            None => {
                dir.push((name.to_owned(), FileOrDirectory::File(content)));
                proof {
                    lemma_pairs_model_push(
                        dir0,
                        (dir@[dir0.len() as int].0, dir@[dir0.len() as int].1),
                    );
                    lemma_entries_wf_push(cur, name@, Node::File(content@));
                    lemma_replace_dir_at(m, p, cur.push((name@, Node::File(content@))));
                }
            },
        }
        self.has_been_modified = self.has_been_modified || !unchanged;
        CommandResult::Okay
    }

    /// `cd name`: the reserved "up" token pops the last path segment (a
    /// no-op at the root); otherwise the name must be an existing
    /// directory of the current one, which the path then descends into.
    pub fn move_to_dir(&mut self, name: &str) -> (r: CommandResult)
        requires
            old(self).wf(),
        ensures
            final(self).wf(),
            final(self).data == old(self).data,
            final(self).error_message == old(self).error_message,
            final(self).has_been_modified == old(self).has_been_modified,
            spec_is_up_token(name@) ==> r == CommandResult::Okay && final(self).cwd_model()
                == old(self).cwd_model().take(
                if old(self).cwd@.len() == 0 {
                    0
                } else {
                    old(self).cwd@.len() - 1
                },
            ),
            !spec_is_up_token(name@) && dir_has_dir(old(self).cur_dir(), name@) ==> r
                == CommandResult::Okay && final(self).cwd_model() == old(self).cwd_model().push(
                name@,
            ),
            !spec_is_up_token(name@) && !dir_has_dir(old(self).cur_dir(), name@) ==> r
                == CommandResult::BadArgs && final(self).cwd == old(self).cwd,
    {
        let ghost m = old(self).model();
        let ghost p = old(self).cwd_model();
        if is_up_token(name) {
            if self.cwd.len() > 0 {
                self.cwd.pop();
            }
            proof {
                let k: int = if p.len() == 0 {
                    0
                } else {
                    p.len() - 1
                };
                lemma_resolves_take(m, p, k);
                assert(string_views(self.cwd@) =~= p.take(k));
            }
            CommandResult::Okay
        } else {
            let mut is_dir = false;
            {
                proof {
                    assert(string_views(self.cwd@).skip(0) =~= string_views(self.cwd@));
                }
                let dir = dir_children(&self.data.entries, &self.cwd, 0);
                let ghost cur = entries_model(*dir);
                match find_entry(dir, name) {
                    Some(i) => {
                        proof {
                            lemma_found_index(cur, name@, i as int);
                        }
                        match &dir[i].1 {
                            FileOrDirectory::Directory(_) => {
                                proof {
                                    assert(cur[i as int].1 is Dir);
                                }
                                is_dir = true;
                            },
                            FileOrDirectory::File(_) => {
                                proof {
                                    assert(cur[i as int].1 is File);
                                }
                            },
                        }
                    },
                    None => {},
                }
            }
            if is_dir {
                self.cwd.push(name.to_owned());
                proof {
                    lemma_resolves_snoc(m, p, name@);
                    assert(string_views(self.cwd@) =~= p.push(name@));
                }
                CommandResult::Okay
            } else {
                CommandResult::BadArgs
            }
        }
    }
}

/// What `cd name` leaves behind: tree, error line and flag untouched;
/// the path popped on the reserved token, extended into an existing
/// directory, or kept (with failure) otherwise.
pub open spec fn cd_post(pre: Supno, post: Supno, name: Seq<char>, res: CommandResult) -> bool {
    &&& post.data == pre.data
    &&& post.error_message == pre.error_message
    &&& post.has_been_modified == pre.has_been_modified
    &&& spec_is_up_token(name) ==> res == CommandResult::Okay && post.cwd_model()
        == pre.cwd_model().take(
        if pre.cwd@.len() == 0 {
            0
        } else {
            pre.cwd@.len() - 1
        },
    )
    &&& !spec_is_up_token(name) && dir_has_dir(pre.cur_dir(), name) ==> res
        == CommandResult::Okay && post.cwd_model() == pre.cwd_model().push(name)
    &&& !spec_is_up_token(name) && !dir_has_dir(pre.cur_dir(), name) ==> res
        == CommandResult::BadArgs && post.cwd == pre.cwd
}

/// What `edit name` leaves behind: an existing file is asked to be
/// opened; anything else fails; the state never changes.
pub open spec fn open_file_post(
    pre: Supno,
    post: Supno,
    name: Seq<char>,
    r: (CommandResult, Option<String>),
) -> bool {
    &&& post == pre
    &&& dir_has_file(pre.cur_dir(), name) ==> r.0 == CommandResult::Okay && (r.1 matches Some(n)
        && n@ == name)
    &&& !dir_has_file(pre.cur_dir(), name) ==> r.0 == CommandResult::BadArgs && r.1 is None
}

/// What `rm name` leaves behind: the entry removed and the session
/// modified, or failure with nothing changed.
pub open spec fn rm_post(pre: Supno, post: Supno, name: Seq<char>, res: CommandResult) -> bool {
    &&& post.cwd == pre.cwd
    &&& post.error_message == pre.error_message
    &&& has_name(pre.cur_dir(), name) ==> {
        &&& res == CommandResult::Okay
        &&& post.model() == replace_dir_at(
            pre.model(),
            pre.cwd_model(),
            pre.cur_dir().remove(index_of_name(pre.cur_dir(), name)),
        )
        &&& post.has_been_modified
    }
    &&& !has_name(pre.cur_dir(), name) ==> res == CommandResult::BadArgs && post == pre
}

/// What `new name` leaves behind: an empty file created — a structural
/// change, so the session becomes modified — and asked to be opened, or
/// failure with nothing changed on a collision or a reserved name.
pub open spec fn new_file_post(
    pre: Supno,
    post: Supno,
    name: Seq<char>,
    r: (CommandResult, Option<String>),
) -> bool {
    &&& post.cwd == pre.cwd
    &&& post.error_message == pre.error_message
    &&& spec_is_up_token(name) || has_name(pre.cur_dir(), name) ==> r.0 == CommandResult::BadArgs
        && r.1 is None && post == pre
    &&& !spec_is_up_token(name) && !has_name(pre.cur_dir(), name) ==> {
        &&& r.0 == CommandResult::Okay
        &&& r.1 matches Some(n) && n@ == name
        &&& post.model() == replace_dir_at(
            pre.model(),
            pre.cwd_model(),
            pre.cur_dir().push((name, Node::File(Seq::empty()))),
        )
        &&& post.has_been_modified
    }
}

/// What `mkdir name` leaves behind: an empty directory created, the
/// session modified and the path moved into it, or failure with nothing
/// changed on a collision or a reserved name.
pub open spec fn mkdir_post(pre: Supno, post: Supno, name: Seq<char>, res: CommandResult) -> bool {
    &&& post.error_message == pre.error_message
    &&& spec_is_up_token(name) || has_name(pre.cur_dir(), name) ==> res == CommandResult::BadArgs
        && post == pre
    &&& !spec_is_up_token(name) && !has_name(pre.cur_dir(), name) ==> {
        &&& res == CommandResult::Okay
        &&& post.model() == replace_dir_at(
            pre.model(),
            pre.cwd_model(),
            pre.cur_dir().push((name, Node::Dir(Seq::empty()))),
        )
        &&& post.cwd_model() == pre.cwd_model().push(name)
        &&& post.has_been_modified
    }
}

/// What a bare path name leaves behind: up-navigation, descent into a
/// directory, a request to open a file, or a recoverable miss.
pub open spec fn path_post(
    pre: Supno,
    post: Supno,
    name: Seq<char>,
    r: (CommandResult, Option<String>),
) -> bool {
    &&& spec_is_up_token(name) ==> r.0 == CommandResult::Okay && r.1 is None && cd_post(
        pre,
        post,
        name,
        CommandResult::Okay,
    )
    &&& !spec_is_up_token(name) && dir_has_dir(pre.cur_dir(), name) ==> r.0 == CommandResult::Okay
        && r.1 is None && post.data == pre.data && post.error_message == pre.error_message
        && post.has_been_modified == pre.has_been_modified && post.cwd_model()
        == pre.cwd_model().push(name)
    &&& !spec_is_up_token(name) && dir_has_file(pre.cur_dir(), name) ==> r.0
        == CommandResult::Okay && (r.1 matches Some(n) && n@ == name) && post == pre
    &&& !spec_is_up_token(name) && !has_name(pre.cur_dir(), name) ==> r.0
        == CommandResult::NotFound && r.1 is None && post == pre
}

/// A key at the shell prompt, reduced to what the loop decides on.
#[derive(PartialEq, Eq, Structural, Debug, Clone, Copy)]
pub enum ShellKey {
    Enter,
    Escape,
    Character(char),
    Other,
}

/// What the interactive loop does with one key press.
#[derive(PartialEq, Eq, Structural, Debug, Clone, Copy)]
pub enum ShellSignal {
    Submit,
    Back,
    Pass,
}

/// Decides the loop's reaction to a key: the line is submitted on
/// enter, the shell steps back (or ends at the root) on escape or its
/// control chord, and every other key is left to line editing.
pub fn shell_key_outcome(key: ShellKey, ctrl: bool) -> (r: ShellSignal)
    ensures
        r == (if key == ShellKey::Enter {
            ShellSignal::Submit
        } else if key == ShellKey::Escape || (ctrl && key == ShellKey::Character('x')) {
            ShellSignal::Back
        } else {
            ShellSignal::Pass
        }),
{
    match key {
        ShellKey::Enter => ShellSignal::Submit,
        ShellKey::Escape => ShellSignal::Back,
        ShellKey::Character(c) => if ctrl && c == 'x' {
            ShellSignal::Back
        } else {
            ShellSignal::Pass
        },
        ShellKey::Other => ShellSignal::Pass,
    }
}

/// Law: in any well-formed shell state — as `Supno::new` makes it and
/// every command leaves it — the current directory path resolves to an
/// existing directory of the tree, so reading the current directory
/// never fails and never lands on a stale path.
pub proof fn lemma_current_directory_resolves(s: Supno)
    requires
        s.wf(),
    ensures
        resolves(s.model(), s.cwd_model()),
        s.cur_dir() == dir_at(s.model(), s.cwd_model()),
{
}

/// The entry names of a directory, in order.
pub open spec fn names_of(m: Seq<(Seq<char>, Node)>) -> Seq<Seq<char>> {
    Seq::new(m.len(), |i: int| m[i].0)
}

/// The listing line for one kind of entry: each matching name followed
/// by a space, in directory order (`want_dir` selects directories).
pub open spec fn listing_string(m: Seq<(Seq<char>, Node)>, want_dir: bool) -> Seq<char>
    decreases m.len(),
{
    if m.len() == 0 {
        Seq::empty()
    } else {
        (if (m[0].1 is Dir) == want_dir {
            m[0].0 + seq![' ']
        } else {
            Seq::empty()
        }) + listing_string(m.drop_first(), want_dir)
    }
}

/// Every segment preceded by a separator, concatenated.
pub open spec fn slash_concat(p: Seq<Seq<char>>) -> Seq<char>
    decreases p.len(),
{
    if p.len() == 0 {
        Seq::empty()
    } else {
        seq!['/'] + p[0] + slash_concat(p.drop_first())
    }
}

/// The absolute path string: `/` at the root, else `/a/b/...`.
pub open spec fn path_string(p: Seq<Seq<char>>) -> Seq<char> {
    if p.len() == 0 {
        seq!['/']
    } else {
        slash_concat(p)
    }
}

/// Given the current directory's entry names and a non-empty partial
/// input, the suffix completing the shortest name that strictly extends
/// the input; nothing on empty input, an exact match, or no candidate.
pub fn autocomplete_input(items: &Vec<String>, current_input: &String) -> (r: Option<String>)
    ensures
        match r {
            Option::None => current_input@.len() == 0 || (exists|i: int|
                0 <= i < items@.len() && #[trigger] items@[i]@ == current_input@) || (forall|
                i: int,
            |
                0 <= i < items@.len() ==> !is_strict_prefix(current_input@, #[trigger] items@[i]@)),
            Option::Some(rem) => {
                &&& current_input@.len() > 0
                &&& rem@.len() > 0
                &&& !(exists|i: int|
                    0 <= i < items@.len() && #[trigger] items@[i]@ == current_input@)
                &&& exists|i: int|
                    0 <= i < items@.len() && #[trigger] items@[i]@ == current_input@ + rem@
                &&& forall|i: int|
                    0 <= i < items@.len() && is_strict_prefix(current_input@, #[trigger] items@[i]@)
                        ==> items@[i]@.len() >= current_input@.len() + rem@.len()
            },
        },
{
    if current_input.as_str().is_empty() {
        return None;
    }
    let mut exact = false;
    let mut best: Option<usize> = None;
    let mut i: usize = 0;
    while i < items.len()
        invariant
            0 <= i <= items@.len(),
            exact == (exists|j: int| 0 <= j < i && #[trigger] items@[j]@ == current_input@),
            match best {
                Option::None => forall|j: int|
                    0 <= j < i ==> !is_strict_prefix(current_input@, #[trigger] items@[j]@),
                Option::Some(b) => {
                    &&& b < i
                    &&& is_strict_prefix(current_input@, items@[b as int]@)
                    &&& forall|j: int|
                        0 <= j < i && is_strict_prefix(current_input@, #[trigger] items@[j]@)
                            ==> items@[j]@.len() >= items@[b as int]@.len()
                },
            },
        decreases items@.len() - i,
    {
        if str_eq(items[i].as_str(), current_input.as_str()) {
            exact = true;
        } else if is_strict_prefix_exec(current_input.as_str(), items[i].as_str()) {
            match best {
                None => {
                    best = Some(i);
                },
                Some(b) => {
                    if items[i].as_str().unicode_len() < items[b].as_str().unicode_len() {
                        best = Some(i);
                    }
                },
            }
        }
        i += 1;
    }
    if exact {
        return None;
    }
    match best {
        None => None,
        Some(b) => {
            let l = current_input.as_str().unicode_len();
            let total = items[b].as_str().unicode_len();
            let rem = items[b].as_str().substring_char(l, total).to_owned();
            proof {
                assert(current_input@ + rem@ =~= items@[b as int]@);
            }
            Some(rem)
        },
    }
}

impl Supno {
    /// The names, the directory line, and the file line of the current
    /// directory, in directory order.
    pub fn list_dir(&self) -> (r: (Vec<String>, String, String))
        requires
            self.wf(),
        ensures
            string_views(r.0@) == names_of(self.cur_dir()),
            r.1@ == listing_string(self.cur_dir(), true),
            r.2@ == listing_string(self.cur_dir(), false),
    {
        let dir = self.get_cwd_data();
        let ghost cur = entries_model(*dir);
        let mut items: Vec<String> = Vec::new();
        let mut dirs = String::new();
        let mut files = String::new();
        let mut i: usize = 0;
        proof {
            assert(cur.skip(0) =~= cur);
            assert(dirs@ + listing_string(cur, true) =~= listing_string(cur, true));
            assert(files@ + listing_string(cur, false) =~= listing_string(cur, false));
        }
        while i < dir.len()
            invariant
                0 <= i <= dir@.len(),
                cur == entries_model(*dir),
                cur.len() == dir@.len(),
                items@.len() == i,
                forall|j: int| 0 <= j < i ==> items@[j]@ == cur[j].0,
                listing_string(cur, true) == dirs@ + listing_string(cur.skip(i as int), true),
                listing_string(cur, false) == files@ + listing_string(cur.skip(i as int), false),
            decreases dir@.len() - i,
        {
            proof {
                assert(cur.skip(i as int)[0] == cur[i as int]);
                assert(cur.skip(i as int).drop_first() =~= cur.skip(i as int + 1));
            }
            items.push(dir[i].0.clone());
            match &dir[i].1 {
                FileOrDirectory::Directory(_) => {
                    proof {
                        assert(cur[i as int].1 is Dir);
                    }
                    dirs.append(dir[i].0.as_str());
                    push_char(&mut dirs, ' ');
                },
                FileOrDirectory::File(_) => {
                    proof {
                        assert(cur[i as int].1 is File);
                    }
                    files.append(dir[i].0.as_str());
                    push_char(&mut files, ' ');
                },
            }
            i += 1;
            proof {
                assert(listing_string(cur, true) == dirs@ + listing_string(
                    cur.skip(i as int),
                    true,
                ));
                assert(listing_string(cur, false) == files@ + listing_string(
                    cur.skip(i as int),
                    false,
                ));
            }
        }
        proof {
            assert(cur.skip(cur.len() as int) =~= Seq::<(Seq<char>, Node)>::empty());
            assert(dirs@ =~= listing_string(cur, true));
            assert(files@ =~= listing_string(cur, false));
            assert(string_views(items@) =~= names_of(cur));
        }
        (items, dirs, files)
    }

    /// A bare path name typed at the prompt: the reserved token goes up,
    /// an existing directory is entered, an existing file is asked to be
    /// opened, and anything else is a recoverable miss.
    pub fn handle_path(&mut self, name: &str) -> (r: (CommandResult, Option<String>))
        requires
            old(self).wf(),
        ensures
            final(self).wf(),
            path_post(*old(self), *final(self), name@, r),
    {
        let ghost cur = old(self).cur_dir();
        if is_up_token(name) {
            self.move_to_dir(name);
            return (CommandResult::Okay, None);
        }
        let mut found_dir = false;
        let mut found_file = false;
        {
            let dir = self.get_cwd_data();
            match find_entry(dir, name) {
                Some(i) => {
                    proof {
                        lemma_found_index(cur, name@, i as int);
                    }
                    match &dir[i].1 {
                        FileOrDirectory::Directory(_) => {
                            proof {
                                assert(cur[i as int].1 is Dir);
                            }
                            found_dir = true;
                        },
                        FileOrDirectory::File(_) => {
                            proof {
                                assert(cur[i as int].1 is File);
                            }
                            found_file = true;
                        },
                    }
                },
                None => {},
            }
        }
        if found_dir {
            self.move_to_dir(name);
            (CommandResult::Okay, None)
        } else if found_file {
            (CommandResult::Okay, Some(name.to_owned()))
        } else {
            (CommandResult::NotFound, None)
        }
    }

    /// Interprets one command line: an empty line and `ok` do nothing,
    /// `cd`, `edit`, `rm`, `n`/`new` and `d`/`mkdir` take exactly one
    /// argument, `abort` ends the session discarding changes, `exit`
    /// ends it keeping them, and anything else is tried as a bare path.
    pub fn handle_command(&mut self, command: String) -> (r: (CommandResult, Option<String>))
        requires
            old(self).wf(),
        ensures
            final(self).wf(),
            ({
                let parts = spec_split(command@, ' ');
                let kw = parts[0];
                let args = parts.drop_first();
                &&& kw.len() == 0 ==> r.0 == CommandResult::Okay && r.1 is None && *final(self)
                    == *old(self)
                &&& kw == "cd"@ ==> r.1 is None && (if args.len() != 1 {
                    r.0 == CommandResult::BadArgs && *final(self) == *old(self)
                } else {
                    cd_post(*old(self), *final(self), args[0], r.0)
                })
                &&& kw == "edit"@ ==> (if args.len() != 1 {
                    r.0 == CommandResult::BadArgs && r.1 is None && *final(self) == *old(self)
                } else {
                    open_file_post(*old(self), *final(self), args[0], r)
                })
                &&& kw == "rm"@ ==> r.1 is None && (if args.len() != 1 {
                    r.0 == CommandResult::BadArgs && *final(self) == *old(self)
                } else {
                    rm_post(*old(self), *final(self), args[0], r.0)
                })
                &&& kw == "n"@ || kw == "new"@ ==> (if args.len() != 1 {
                    r.0 == CommandResult::BadArgs && r.1 is None && *final(self) == *old(self)
                } else {
                    new_file_post(*old(self), *final(self), args[0], r)
                })
                &&& kw == "d"@ || kw == "mkdir"@ ==> r.1 is None && (if args.len() != 1 {
                    r.0 == CommandResult::BadArgs && *final(self) == *old(self)
                } else {
                    mkdir_post(*old(self), *final(self), args[0], r.0)
                })
                &&& kw == "abort"@ ==> r.0 == CommandResult::Exit && r.1 is None && final(self).data == old(self).data && final(self).cwd == old(self).cwd && final(self).error_message == old(self).error_message && !final(self).has_been_modified
                &&& kw == "exit"@ ==> r.0 == CommandResult::Exit && r.1 is None && *final(self)
                    == *old(self)
                &&& kw == "ok"@ ==> r.0 == CommandResult::Okay && r.1 is None && *final(self)
                    == *old(self)
                &&& kw.len() != 0 && kw != "cd"@ && kw != "edit"@ && kw != "rm"@ && kw != "n"@
                    && kw != "new"@ && kw != "d"@ && kw != "mkdir"@ && kw != "abort"@ && kw
                    != "exit"@ && kw != "ok"@ ==> path_post(*old(self), *final(self), kw, r)
            }),
    {
        proof {
            reveal_strlit("cd");
            reveal_strlit("edit");
            reveal_strlit("rm");
            reveal_strlit("n");
            reveal_strlit("new");
            reveal_strlit("d");
            reveal_strlit("mkdir");
            reveal_strlit("abort");
            reveal_strlit("exit");
            reveal_strlit("ok");
            assert("cd"@.len() == 2 && "cd"@[0] == 'c');
            assert("edit"@.len() == 4 && "edit"@[1] == 'd');
            assert("rm"@.len() == 2 && "rm"@[0] == 'r');
            assert("n"@.len() == 1 && "n"@[0] == 'n');
            assert("new"@.len() == 3);
            assert("d"@.len() == 1 && "d"@[0] == 'd');
            assert("mkdir"@.len() == 5 && "mkdir"@[0] == 'm');
            assert("abort"@.len() == 5 && "abort"@[0] == 'a');
            assert("exit"@.len() == 4 && "exit"@[1] == 'x');
            assert("ok"@.len() == 2 && "ok"@[0] == 'o');
        }
        let parts = split_char(command.as_str(), ' ');
        let ghost sparts = spec_split(command@, ' ');
        proof {
            assert(string_views(parts@) == sparts);
            assert(sparts.len() >= 1);
            assert(parts@[0]@ == sparts[0]);
            if sparts.len() >= 2 {
                assert(parts@[1]@ == sparts[1]);
                assert(sparts.drop_first()[0] == sparts[1]);
            }
        }
        let keyword = &parts[0];
        if keyword.as_str().is_empty() {
            return (CommandResult::Okay, None);
        }
        if str_eq(keyword.as_str(), "cd") {
            if parts.len() != 2 {
                return (CommandResult::BadArgs, None);
            }
            let res = self.move_to_dir(parts[1].as_str());
            return (res, None);
        }
        if str_eq(keyword.as_str(), "edit") {
            if parts.len() != 2 {
                return (CommandResult::BadArgs, None);
            }
            let ghost cur = old(self).cur_dir();
            let name = &parts[1];
            let mut is_file = false;
            {
                let dir = self.get_cwd_data();
                match find_entry(dir, name.as_str()) {
                    Some(i) => {
                        proof {
                            lemma_found_index(cur, name@, i as int);
                        }
                        match &dir[i].1 {
                            FileOrDirectory::File(_) => {
                                proof {
                                    assert(cur[i as int].1 is File);
                                }
                                is_file = true;
                            },
                            FileOrDirectory::Directory(_) => {
                                proof {
                                    assert(cur[i as int].1 is Dir);
                                }
                            },
                        }
                    },
                    None => {},
                }
            }
            if is_file {
                return (CommandResult::Okay, Some(name.clone()));
            }
            return (CommandResult::BadArgs, None);
        }
        if str_eq(keyword.as_str(), "rm") {
            if parts.len() != 2 {
                return (CommandResult::BadArgs, None);
            }
            let res = self.remove_item(parts[1].as_str());
            return (res, None);
        }
        if str_eq(keyword.as_str(), "n") || str_eq(keyword.as_str(), "new") {
            if parts.len() != 2 {
                return (CommandResult::BadArgs, None);
            }
            return self.create_file(parts[1].as_str());
        }
        if str_eq(keyword.as_str(), "d") || str_eq(keyword.as_str(), "mkdir") {
            if parts.len() != 2 {
                return (CommandResult::BadArgs, None);
            }
            let res = self.create_dir(parts[1].as_str());
            return (res, None);
        }
        if str_eq(keyword.as_str(), "abort") {
            self.has_been_modified = false;
            return (CommandResult::Exit, None);
        }
        if str_eq(keyword.as_str(), "exit") {
            return (CommandResult::Exit, None);
        }
        if str_eq(keyword.as_str(), "ok") {
            return (CommandResult::Okay, None);
        }
        self.handle_path(keyword.as_str())
    }

    /// One prompt line, with the recovery the interactive loop applies:
    /// the command's effect is that of `handle_command`; on success the
    /// error line is cleared, on `BadArgs` it reports that, and on a
    /// miss an autocomplete suggestion for the typed text is tried as a
    /// path before the miss is reported (the old error line is kept when
    /// the retried path fails).
    pub fn process_command(&mut self, line: &String) -> (r: (CommandResult, Option<String>))
        requires
            old(self).wf(),
        ensures
            final(self).wf(),
            r.0 == CommandResult::Okay ==> final(self).error_message@.len() == 0,
            r.0 == CommandResult::BadArgs ==> final(self).error_message@ == "bad args"@ && final(self).data == old(self).data && final(self).cwd == old(self).cwd && final(self).has_been_modified == old(self).has_been_modified && r.1 is None,
            r.0 == CommandResult::NotFound ==> final(self).data == old(self).data && final(self).cwd == old(self).cwd && final(self).has_been_modified == old(self).has_been_modified && r.1 is None,
            r.0 == CommandResult::NotFound && !(exists|i: int|
                0 <= i < old(self).cur_dir().len() && is_strict_prefix(
                    line@,
                    #[trigger] old(self).cur_dir()[i].0,
                )) ==> final(self).error_message@
                == "unknown command or nonexisting file/directory"@,
            r.0 == CommandResult::NotFound && line@.len() > 0 && !(exists|i: int|
                0 <= i < old(self).cur_dir().len() && #[trigger] old(self).cur_dir()[i].0
                    == line@) && (exists|i: int|
                0 <= i < old(self).cur_dir().len() && is_strict_prefix(
                    line@,
                    #[trigger] old(self).cur_dir()[i].0,
                )) ==> final(self).error_message == old(self).error_message,
            r.0 == CommandResult::Exit ==> final(self).data == old(self).data && final(self).cwd
                == old(self).cwd && final(self).error_message == old(self).error_message && r.1
                is None && (final(self).has_been_modified ==> old(self).has_been_modified),
            ({
                let parts = spec_split(line@, ' ');
                let kw = parts[0];
                let args = parts.drop_first();
                let patched = Supno {
                    error_message: old(self).error_message,
                    ..*final(self)
                };
                &&& kw.len() == 0 ==> r.0 == CommandResult::Okay && r.1 is None && patched
                    == *old(self)
                &&& kw == "cd"@ ==> r.1 is None && (if args.len() != 1 {
                    r.0 == CommandResult::BadArgs && patched == *old(self)
                } else {
                    cd_post(*old(self), patched, args[0], r.0)
                })
                &&& kw == "edit"@ ==> (if args.len() != 1 {
                    r.0 == CommandResult::BadArgs && r.1 is None && patched == *old(self)
                } else {
                    open_file_post(*old(self), patched, args[0], r)
                })
                &&& kw == "rm"@ ==> r.1 is None && (if args.len() != 1 {
                    r.0 == CommandResult::BadArgs && patched == *old(self)
                } else {
                    rm_post(*old(self), patched, args[0], r.0)
                })
                &&& kw == "n"@ || kw == "new"@ ==> (if args.len() != 1 {
                    r.0 == CommandResult::BadArgs && r.1 is None && patched == *old(self)
                } else {
                    new_file_post(*old(self), patched, args[0], r)
                })
                &&& kw == "d"@ || kw == "mkdir"@ ==> r.1 is None && (if args.len() != 1 {
                    r.0 == CommandResult::BadArgs && patched == *old(self)
                } else {
                    mkdir_post(*old(self), patched, args[0], r.0)
                })
                &&& kw == "abort"@ ==> r.0 == CommandResult::Exit && r.1 is None && patched
                    == Supno { has_been_modified: false, ..*old(self) }
                &&& kw == "exit"@ ==> r.0 == CommandResult::Exit && r.1 is None && patched
                    == *old(self)
                &&& kw == "ok"@ ==> r.0 == CommandResult::Okay && r.1 is None && patched == *old(
                    self,
                )
                &&& kw.len() != 0 && kw != "cd"@ && kw != "edit"@ && kw != "rm"@ && kw != "n"@
                    && kw != "new"@ && kw != "d"@ && kw != "mkdir"@ && kw != "abort"@ && kw
                    != "exit"@ && kw != "ok"@ ==> {
                    ||| path_post(*old(self), patched, kw, r)
                    ||| (r.0 == CommandResult::Okay && (exists|full: Seq<char>|
                        #![auto]
                        is_strict_prefix(line@, full) && path_post(*old(self), patched, full, r)))
                }
            }),
    {
        let ghost cur = old(self).cur_dir();
        let listing = self.list_dir();
        let items = listing.0;
        let res = self.handle_command(line.clone());
        match res.0 {
            CommandResult::Okay => {
                self.error_message = String::new();
                (CommandResult::Okay, res.1)
            },
            CommandResult::BadArgs => {
                self.error_message = "bad args".to_owned();
                (CommandResult::BadArgs, None)
            },
            CommandResult::Exit => (CommandResult::Exit, None),
            CommandResult::NotFound => {
                match autocomplete_input(&items, line) {
                    Some(remainder) => {
                        let mut full = line.clone();
                        full.append(remainder.as_str());
                        let ghost mid = *self;
                        let r2 = self.handle_path(full.as_str());
                        let ghost mid2 = *self;
                        match r2.0 {
                            CommandResult::Okay => {
                                self.error_message = String::new();
                                let out = (CommandResult::Okay, r2.1);
                                proof {
                                    let pre = *old(self);
                                    let patched = Supno {
                                        error_message: pre.error_message,
                                        cwd: mid2.cwd,
                                        data: mid2.data,
                                        has_been_modified: mid2.has_been_modified,
                                    };
                                    assert((line@ + remainder@).take(line@.len() as int)
                                        =~= line@);
                                    assert(is_strict_prefix(line@, full@));
                                    if !spec_is_up_token(full@) && !dir_has_dir(
                                        mid.cur_dir(),
                                        full@,
                                    ) && has_name(mid.cur_dir(), full@) {
                                        assert(lookup_name(mid.cur_dir(), full@) is File
                                            || lookup_name(mid.cur_dir(), full@) is Dir);
                                    }
                                    assert(mid2.error_message == mid.error_message);
                                    assert(patched == mid2);
                                    assert(path_post(mid, patched, full@, out));
                                    assert(exists|w: Seq<char>|
                                        #![auto]
                                        is_strict_prefix(line@, w) && path_post(
                                            pre,
                                            patched,
                                            w,
                                            out,
                                        ));
                                }
                                out
                            },
                            _ => {
                                proof {
                                    if !spec_is_up_token(full@) && has_name(cur, full@) {
                                        assert(lookup_name(cur, full@) is File || lookup_name(
                                            cur,
                                            full@,
                                        ) is Dir);
                                    }
                                    assert(r2.0 == CommandResult::NotFound);
                                    assert(exists|i: int|
                                        0 <= i < items@.len() && #[trigger] items@[i]@ == line@
                                            + remainder@);
                                    let wi = choose|i: int|
                                        0 <= i < items@.len() && #[trigger] items@[i]@ == line@
                                            + remainder@;
                                    assert(0 <= wi < items@.len() && items@[wi]@ == line@
                                        + remainder@);
                                    assert(string_views(items@) == names_of(cur));
                                    assert(string_views(items@).len() == items@.len());
                                    assert(names_of(cur).len() == cur.len());
                                    assert(cur.len() == items@.len());
                                    assert((line@ + remainder@).take(line@.len() as int)
                                        =~= line@);
                                    assert(is_strict_prefix(line@, items@[wi]@));
                                    assert(cur[wi].0 == string_views(items@)[wi]);
                                    assert(is_strict_prefix(line@, cur[wi].0));
                                }
                                (CommandResult::NotFound, None)
                            },
                        }
                    },
                    None => {
                        self.error_message =
                            "unknown command or nonexisting file/directory".to_owned();
                        proof {
                            assert(string_views(items@) == names_of(cur));
                            assert(string_views(items@).len() == items@.len());
                            assert(names_of(cur).len() == cur.len());
                            assert forall|i: int| 0 <= i < cur.len() implies items@[i]@
                                == cur[i].0 by {
                                assert(string_views(items@)[i] == items@[i]@);
                                assert(names_of(cur)[i] == cur[i].0);
                            }
                            if line@.len() > 0 {
                                if exists|j: int|
                                    0 <= j < items@.len() && #[trigger] items@[j]@ == line@ {
                                    let j = choose|j: int|
                                        0 <= j < items@.len() && #[trigger] items@[j]@ == line@;
                                    assert(cur[j].0 == line@);
                                } else {
                                    assert forall|i: int|
                                        0 <= i < cur.len() implies !is_strict_prefix(
                                        line@,
                                        #[trigger] cur[i].0,
                                    ) by {
                                        assert(items@[i]@ == cur[i].0);
                                        assert(!is_strict_prefix(line@, items@[i]@));
                                    }
                                }
                            }
                        }
                        (CommandResult::NotFound, None)
                    },
                }
            },
        }
    }

    /// Stepping back from the prompt: at the root the session ends,
    /// anywhere else the path pops one segment.
    pub fn go_back(&mut self) -> (quit: bool)
        requires
            old(self).wf(),
        ensures
            final(self).wf(),
            old(self).cwd@.len() == 0 ==> quit && *final(self) == *old(self),
            old(self).cwd@.len() > 0 ==> !quit && final(self).data == old(self).data && final(self).error_message == old(self).error_message && final(self).has_been_modified == old(self).has_been_modified && final(self).cwd_model() == old(self).cwd_model().take(
                old(self).cwd@.len() - 1,
            ),
    {
        if self.cwd.len() == 0 {
            true
        } else {
            proof {
                reveal_strlit("..");
                assert(spec_is_up_token(".."@));
            }
            self.move_to_dir("..");
            false
        }
    }

    /// The current directory as an absolute, separator-delimited string.
    pub fn cwd_string(&self) -> (r: String)
        ensures
            r@ == path_string(string_views(self.cwd@)),
    {
        let ghost p = string_views(self.cwd@);
        if self.cwd.len() == 0 {
            let r = "/".to_owned();
            proof {
                reveal_strlit("/");
                assert(r@ =~= seq!['/']);
            }
            return r;
        }
        let mut s = String::new();
        let mut i: usize = 0;
        proof {
            assert(p.skip(0) =~= p);
            assert(s@ + slash_concat(p) =~= slash_concat(p));
        }
        while i < self.cwd.len()
            invariant
                0 <= i <= self.cwd@.len(),
                p == string_views(self.cwd@),
                slash_concat(p) == s@ + slash_concat(p.skip(i as int)),
            decreases self.cwd@.len() - i,
        {
            proof {
                assert(p.skip(i as int)[0] == p[i as int]);
                assert(p.skip(i as int).drop_first() =~= p.skip(i as int + 1));
            }
            push_char(&mut s, '/');
            s.append(self.cwd[i].as_str());
            i += 1;
            proof {
                assert(slash_concat(p) == s@ + slash_concat(p.skip(i as int)));
            }
        }
        proof {
            assert(p.skip(p.len() as int) =~= Seq::<Seq<char>>::empty());
            assert(s@ =~= slash_concat(p));
        }
        s
    }
}

} // verus!
