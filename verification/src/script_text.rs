//! What the updater's batch script is made of, as text: it waits through
//! the window-less sleep script and never through `ping`.

use vstd::prelude::*;
use crate::release::{spec_updater_bat, cleanup_block, del_line, rmdir_line, opt_line};

verus! {

/// `p` stands in `s` at position `i`.
pub open spec fn occurs_at(s: Seq<char>, p: Seq<char>, i: int) -> bool {
    0 <= i && i + p.len() <= s.len() && s.subrange(i, i + p.len()) == p
}

/// `p` stands somewhere in `s`.
pub open spec fn occurs_in(s: Seq<char>, p: Seq<char>) -> bool {
    exists|i: int| occurs_at(s, p, i)
}

/// A character of `ping `.
spec fn in_ping(c: char) -> bool {
    c == 'p' || c == 'i' || c == 'n' || c == 'g' || c == ' '
}

/// No `ping ` starts in `s` from position `i` on, checked character by
/// character.
spec fn ping_free_from(s: Seq<char>, i: int) -> bool
    decreases s.len() - i,
{
    if i < 0 || i + 5 > s.len() {
        true
    } else {
        !(s[i] == 'p' && s[i + 1] == 'i' && s[i + 2] == 'n' && s[i + 3] == 'g' && s[i + 4]
            == ' ') && ping_free_from(s, i + 1)
    }
}

proof fn lemma_ping_free(s: Seq<char>, i: int)
    requires
        0 <= i,
        ping_free_from(s, i),
    ensures
        forall|j: int| i <= j ==> !occurs_at(s, "ping "@, j),
    decreases s.len() - i,
{
    reveal_strlit("ping ");
    if i + 5 <= s.len() {
        lemma_ping_free(s, i + 1);
        if occurs_at(s, "ping "@, i) {
            let t = s.subrange(i, i + 5);
            assert(t[0] == s[i] && t[1] == s[i + 1] && t[2] == s[i + 2] && t[3] == s[i + 3]
                && t[4] == s[i + 4]);
        }
    }
}

/// A piece checked character by character holds no `ping `.
proof fn lemma_quiet_piece(s: Seq<char>)
    requires
        ping_free_from(s, 0),
    ensures
        !occurs_in(s, "ping "@),
{
    lemma_ping_free(s, 0);
}

/// Two pieces without `ping `, joined where one side of the seam is a
/// character that `ping ` does not hold, give none either.
proof fn lemma_join(a: Seq<char>, b: Seq<char>)
    requires
        !occurs_in(a, "ping "@),
        !occurs_in(b, "ping "@),
        (a.len() > 0 && !in_ping(a.last())) || (b.len() > 0 && !in_ping(b[0])),
    ensures
        !occurs_in(a + b, "ping "@),
{
    reveal_strlit("ping ");
    let p = "ping "@;
    let s = a + b;
    if occurs_in(s, p) {
        let i = choose|i: int| occurs_at(s, p, i);
        let t = s.subrange(i, i + 5);
        assert(t == p);
        if i + 5 <= a.len() {
            assert(a.subrange(i, i + 5) =~= t);
            assert(occurs_at(a, p, i));
        } else if i >= a.len() {
            assert(b.subrange(i - a.len(), i - a.len() + 5) =~= t);
            assert(occurs_at(b, p, i - a.len()));
        } else {
            let k = a.len() - 1 - i;
            assert(0 <= k < 4);
            assert(t[k] == a.last());
            assert(t[k + 1] == b[0]);
            assert(in_ping(p[k]) && in_ping(p[k + 1])) by {
                if k == 0 {
                } else if k == 1 {
                } else if k == 2 {
                } else {
                }
            }
        }
    }
}

/// Every line of the cleanup block: no `ping ` when the paths hold none,
/// and the line ends with a line break.
proof fn lemma_quiet_line(p: Seq<char>, rmdir: bool)
    requires
        !occurs_in(p, "ping "@),
    ensures
        !occurs_in(if rmdir { rmdir_line(p) } else { del_line(p) }, "ping "@),
        (if rmdir { rmdir_line(p) } else { del_line(p) }).len() > 0,
        (if rmdir { rmdir_line(p) } else { del_line(p) }).last() == '\n',
{
    reveal_strlit("if exist \"");
    reveal_strlit("\" del /f /q \"");
    reveal_strlit("\" rmdir /s /q \"");
    reveal_strlit("\" >nul\r\n");
    let a = "if exist \""@;
    let m = if rmdir { "\" rmdir /s /q \""@ } else { "\" del /f /q \""@ };
    let e = "\" >nul\r\n"@;
    assert(ping_free_from(a, 0)) by {
        reveal_with_fuel(ping_free_from, 12);
    }
    assert(ping_free_from("\" rmdir /s /q \""@, 0)) by {
        reveal_with_fuel(ping_free_from, 18);
    }
    assert(ping_free_from("\" del /f /q \""@, 0)) by {
        reveal_with_fuel(ping_free_from, 18);
    }
    assert(ping_free_from(e, 0)) by {
        reveal_with_fuel(ping_free_from, 12);
    }
    lemma_quiet_piece(a);
    lemma_quiet_piece(m);
    lemma_quiet_piece(e);
    lemma_join(a, p);
    lemma_join(a + p, m);
    lemma_join(a + p + m, p);
    lemma_join(a + p + m + p, e);
}

proof fn lemma_quiet_opt_line(p: Option<Seq<char>>, rmdir: bool)
    requires
        p matches Some(q) ==> !occurs_in(q, "ping "@),
    ensures
        !occurs_in(opt_line(p, rmdir), "ping "@),
        opt_line(p, rmdir).len() > 0 ==> opt_line(p, rmdir).last() == '\n',
{
    match p {
        Some(q) => {
            lemma_quiet_line(q, rmdir);
            if rmdir {
                assert(!occurs_in(rmdir_line(q), "ping "@));
                assert(opt_line(p, rmdir) == rmdir_line(q));
            } else {
                assert(!occurs_in(del_line(q), "ping "@));
                assert(opt_line(p, rmdir) == del_line(q));
            }
        },
        None => {
            reveal_strlit("ping ");
            assert(opt_line(p, rmdir).len() == 0);
        },
    }
}

proof fn lemma_join_after_line(a: Seq<char>, b: Seq<char>)
    requires
        !occurs_in(a, "ping "@),
        !occurs_in(b, "ping "@),
        a.len() > 0,
        a.last() == '\n',
        b.len() > 0 ==> b.last() == '\n',
    ensures
        !occurs_in(a + b, "ping "@),
        (a + b).len() > 0,
        (a + b).last() == '\n',
{
    lemma_join(a, b);
    if b.len() == 0 {
        assert(a + b =~= a);
    }
}

proof fn lemma_quiet_cleanup(
    downloaded: Seq<char>,
    extract_dir: Option<Seq<char>>,
    sleep_vbs: Seq<char>,
    launcher_vbs: Option<Seq<char>>,
)
    requires
        !occurs_in(downloaded, "ping "@),
        !occurs_in(sleep_vbs, "ping "@),
        extract_dir matches Some(d) ==> !occurs_in(d, "ping "@),
        launcher_vbs matches Some(l) ==> !occurs_in(l, "ping "@),
    ensures
        !occurs_in(cleanup_block(downloaded, extract_dir, sleep_vbs, launcher_vbs), "ping "@),
        cleanup_block(downloaded, extract_dir, sleep_vbs, launcher_vbs).len() > 0,
        cleanup_block(downloaded, extract_dir, sleep_vbs, launcher_vbs).last() == '\n',
{
    let l1 = del_line(downloaded);
    let l2 = opt_line(extract_dir, true);
    let l3 = del_line(sleep_vbs);
    let l4 = opt_line(launcher_vbs, false);
    lemma_quiet_line(downloaded, false);
    lemma_quiet_opt_line(extract_dir, true);
    lemma_quiet_line(sleep_vbs, false);
    lemma_quiet_opt_line(launcher_vbs, false);
    lemma_join_after_line(l1, l2);
    lemma_join_after_line(l1 + l2, l3);
    lemma_join_after_line(l1 + l2 + l3, l4);
}

/// `occurs_in` survives appending text behind.
proof fn lemma_occurs_extend(a: Seq<char>, b: Seq<char>, p: Seq<char>)
    requires
        occurs_in(a, p),
    ensures
        occurs_in(a + b, p),
{
    let i = choose|i: int| occurs_at(a, p, i);
    assert((a + b).subrange(i, i + p.len()) =~= a.subrange(i, i + p.len()));
    assert(occurs_at(a + b, p, i));
}

/// The updater script waits through the window-less sleep script
/// (`wscript //B //Nologo`), and it never runs `ping` for a delay: no
/// `ping ` stands anywhere in it as long as none stands in the paths it is
/// given.
pub proof fn lemma_updater_bat_waits_quietly(
    new_exe: Seq<char>,
    current_exe: Seq<char>,
    downloaded: Seq<char>,
    extract_dir: Option<Seq<char>>,
    sleep_vbs: Seq<char>,
    launcher_vbs: Option<Seq<char>>,
)
    requires
        !occurs_in(new_exe, "ping "@),
        !occurs_in(current_exe, "ping "@),
        !occurs_in(downloaded, "ping "@),
        !occurs_in(sleep_vbs, "ping "@),
        extract_dir matches Some(d) ==> !occurs_in(d, "ping "@),
        launcher_vbs matches Some(l) ==> !occurs_in(l, "ping "@),
    ensures
        occurs_in(
            spec_updater_bat(new_exe, current_exe, downloaded, extract_dir, sleep_vbs, launcher_vbs),
            "wscript //B //Nologo"@,
        ),
        !occurs_in(
            spec_updater_bat(new_exe, current_exe, downloaded, extract_dir, sleep_vbs, launcher_vbs),
            "ping "@,
        ),
{
    reveal_strlit("@echo off\r\nchcp 65001 >nul\r\nset /a tries=0\r\n:copyloop\r\n");
    assert(ping_free_from("@echo off\r\nchcp 65001 >nul\r\nset /a tries=0\r\n:copyloop\r\n"@, 0)) by {
        reveal_with_fuel(ping_free_from, 120);
    }
    lemma_quiet_piece("@echo off\r\nchcp 65001 >nul\r\nset /a tries=0\r\n:copyloop\r\n"@);
    reveal_strlit("wscript //B //Nologo \"");
    assert(ping_free_from("wscript //B //Nologo \""@, 0)) by {
        reveal_with_fuel(ping_free_from, 120);
    }
    lemma_quiet_piece("wscript //B //Nologo \""@);
    reveal_strlit("\" >nul 2>&1\r\n");
    assert(ping_free_from("\" >nul 2>&1\r\n"@, 0)) by {
        reveal_with_fuel(ping_free_from, 120);
    }
    lemma_quiet_piece("\" >nul 2>&1\r\n"@);
    reveal_strlit("copy /y \"");
    assert(ping_free_from("copy /y \""@, 0)) by {
        reveal_with_fuel(ping_free_from, 120);
    }
    lemma_quiet_piece("copy /y \""@);
    reveal_strlit("\" \"");
    assert(ping_free_from("\" \""@, 0)) by {
        reveal_with_fuel(ping_free_from, 120);
    }
    lemma_quiet_piece("\" \""@);
    reveal_strlit("\" >nul 2>&1 && goto copied\r\nset /a tries+=1\r\nif %tries% geq 10 goto copyfailed\r\ngoto copyloop\r\n:copyfailed\r\n");
    assert(ping_free_from("\" >nul 2>&1 && goto copied\r\nset /a tries+=1\r\nif %tries% geq 10 goto copyfailed\r\ngoto copyloop\r\n:copyfailed\r\n"@, 80)) by {
        reveal_with_fuel(ping_free_from, 41);
    }
    assert(ping_free_from("\" >nul 2>&1 && goto copied\r\nset /a tries+=1\r\nif %tries% geq 10 goto copyfailed\r\ngoto copyloop\r\n:copyfailed\r\n"@, 40)) by {
        reveal_with_fuel(ping_free_from, 41);
    }
    assert(ping_free_from("\" >nul 2>&1 && goto copied\r\nset /a tries+=1\r\nif %tries% geq 10 goto copyfailed\r\ngoto copyloop\r\n:copyfailed\r\n"@, 0)) by {
        reveal_with_fuel(ping_free_from, 41);
    }
    lemma_quiet_piece("\" >nul 2>&1 && goto copied\r\nset /a tries+=1\r\nif %tries% geq 10 goto copyfailed\r\ngoto copyloop\r\n:copyfailed\r\n"@);
    reveal_strlit("(goto) 2>nul & del \"%~f0\"\r\nexit /b 1\r\n:copied\r\n");
    assert(ping_free_from("(goto) 2>nul & del \"%~f0\"\r\nexit /b 1\r\n:copied\r\n"@, 0)) by {
        reveal_with_fuel(ping_free_from, 120);
    }
    lemma_quiet_piece("(goto) 2>nul & del \"%~f0\"\r\nexit /b 1\r\n:copied\r\n"@);
    reveal_strlit("start \"\" \"");
    assert(ping_free_from("start \"\" \""@, 0)) by {
        reveal_with_fuel(ping_free_from, 120);
    }
    lemma_quiet_piece("start \"\" \""@);
    reveal_strlit("\"\r\n(goto) 2>nul & del \"%~f0\"\r\n");
    assert(ping_free_from("\"\r\n(goto) 2>nul & del \"%~f0\"\r\n"@, 0)) by {
        reveal_with_fuel(ping_free_from, 120);
    }
    lemma_quiet_piece("\"\r\n(goto) 2>nul & del \"%~f0\"\r\n"@);
    let c = cleanup_block(downloaded, extract_dir, sleep_vbs, launcher_vbs);
    lemma_quiet_cleanup(downloaded, extract_dir, sleep_vbs, launcher_vbs);
    let x1 = "@echo off\r\nchcp 65001 >nul\r\nset /a tries=0\r\n:copyloop\r\n"@ + "wscript //B //Nologo \""@;
    lemma_join("@echo off\r\nchcp 65001 >nul\r\nset /a tries=0\r\n:copyloop\r\n"@, "wscript //B //Nologo \""@);
    let x2 = x1 + sleep_vbs;
    lemma_join(x1, sleep_vbs);
    let x3 = x2 + "\" >nul 2>&1\r\n"@;
    lemma_join(x2, "\" >nul 2>&1\r\n"@);
    let x4 = x3 + "copy /y \""@;
    lemma_join(x3, "copy /y \""@);
    let x5 = x4 + new_exe;
    lemma_join(x4, new_exe);
    let x6 = x5 + "\" \""@;
    lemma_join(x5, "\" \""@);
    let x7 = x6 + current_exe;
    lemma_join(x6, current_exe);
    let x8 = x7 + "\" >nul 2>&1 && goto copied\r\nset /a tries+=1\r\nif %tries% geq 10 goto copyfailed\r\ngoto copyloop\r\n:copyfailed\r\n"@;
    lemma_join(x7, "\" >nul 2>&1 && goto copied\r\nset /a tries+=1\r\nif %tries% geq 10 goto copyfailed\r\ngoto copyloop\r\n:copyfailed\r\n"@);
    let x9 = x8 + c;
    lemma_join(x8, c);
    let x10 = x9 + "(goto) 2>nul & del \"%~f0\"\r\nexit /b 1\r\n:copied\r\n"@;
    lemma_join(x9, "(goto) 2>nul & del \"%~f0\"\r\nexit /b 1\r\n:copied\r\n"@);
    let x11 = x10 + c;
    lemma_join(x10, c);
    let x12 = x11 + "start \"\" \""@;
    lemma_join(x11, "start \"\" \""@);
    let x13 = x12 + current_exe;
    lemma_join(x12, current_exe);
    let x14 = x13 + "\"\r\n(goto) 2>nul & del \"%~f0\"\r\n"@;
    lemma_join(x13, "\"\r\n(goto) 2>nul & del \"%~f0\"\r\n"@);
    assert(x14 == spec_updater_bat(new_exe, current_exe, downloaded, extract_dir, sleep_vbs, launcher_vbs));
    reveal_strlit("wscript //B //Nologo");
    let w = "wscript //B //Nologo"@;
    let n1 = "@echo off\r\nchcp 65001 >nul\r\nset /a tries=0\r\n:copyloop\r\n"@.len() as int;
    assert(x1.subrange(n1, n1 + 20) =~= w);
    assert(occurs_at(x1, w, n1));
    lemma_occurs_extend(x1, sleep_vbs, w);
    lemma_occurs_extend(x2, "\" >nul 2>&1\r\n"@, w);
    lemma_occurs_extend(x3, "copy /y \""@, w);
    lemma_occurs_extend(x4, new_exe, w);
    lemma_occurs_extend(x5, "\" \""@, w);
    lemma_occurs_extend(x6, current_exe, w);
    lemma_occurs_extend(x7, "\" >nul 2>&1 && goto copied\r\nset /a tries+=1\r\nif %tries% geq 10 goto copyfailed\r\ngoto copyloop\r\n:copyfailed\r\n"@, w);
    lemma_occurs_extend(x8, c, w);
    lemma_occurs_extend(x9, "(goto) 2>nul & del \"%~f0\"\r\nexit /b 1\r\n:copied\r\n"@, w);
    lemma_occurs_extend(x10, c, w);
    lemma_occurs_extend(x11, "start \"\" \""@, w);
    lemma_occurs_extend(x12, current_exe, w);
    lemma_occurs_extend(x13, "\"\r\n(goto) 2>nul & del \"%~f0\"\r\n"@, w);
}


/// The copy loop: wait through the window-less sleep script, try to copy
/// the new program over the current one (done on success), count the
/// failed try, and give up after ten of them.
pub open spec fn copy_loop(sleep_vbs: Seq<char>, new_exe: Seq<char>, current_exe: Seq<char>) -> Seq<char> {
    ":copyloop\r\n"@ + "wscript //B //Nologo \""@ + sleep_vbs + "\" >nul 2>&1\r\n"@ + "copy /y \""@
        + new_exe + "\" \""@ + current_exe + "\" >nul 2>&1 && goto copied\r\n"@
        + "set /a tries+=1\r\nif %tries% geq 10 goto copyfailed\r\ngoto copyloop\r\n"@
}

/// Giving up: clean up, delete the script, and exit with code 1 without
/// starting anything.
pub open spec fn give_up_branch(cleanup: Seq<char>) -> Seq<char> {
    ":copyfailed\r\n"@ + cleanup + "(goto) 2>nul & del \"%~f0\"\r\nexit /b 1\r\n"@
}

/// Success: clean up, start the current (now new) program, and delete the
/// script.
pub open spec fn success_branch(cleanup: Seq<char>, current_exe: Seq<char>) -> Seq<char> {
    ":copied\r\n"@ + cleanup + "start \"\" \""@ + current_exe + "\"\r\n(goto) 2>nul & del \"%~f0\"\r\n"@
}

/// The steps of the updater script: after setting the try counter to zero,
/// the copy loop, then the branch that gives up, then the branch taken on
/// success; both branches run the same cleanup.
pub proof fn lemma_updater_bat_steps(
    new_exe: Seq<char>,
    current_exe: Seq<char>,
    downloaded: Seq<char>,
    extract_dir: Option<Seq<char>>,
    sleep_vbs: Seq<char>,
    launcher_vbs: Option<Seq<char>>,
)
    ensures
        spec_updater_bat(new_exe, current_exe, downloaded, extract_dir, sleep_vbs, launcher_vbs)
            == "@echo off\r\nchcp 65001 >nul\r\nset /a tries=0\r\n"@ + copy_loop(sleep_vbs, new_exe, current_exe)
            + give_up_branch(cleanup_block(downloaded, extract_dir, sleep_vbs, launcher_vbs))
            + success_branch(cleanup_block(downloaded, extract_dir, sleep_vbs, launcher_vbs), current_exe),
{
    let c = cleanup_block(downloaded, extract_dir, sleep_vbs, launcher_vbs);
    reveal_strlit("@echo off\r\nchcp 65001 >nul\r\nset /a tries=0\r\n:copyloop\r\n");
    reveal_strlit("@echo off\r\nchcp 65001 >nul\r\nset /a tries=0\r\n");
    reveal_strlit(":copyloop\r\n");
    reveal_strlit("\" >nul 2>&1 && goto copied\r\nset /a tries+=1\r\nif %tries% geq 10 goto copyfailed\r\ngoto copyloop\r\n:copyfailed\r\n");
    reveal_strlit("\" >nul 2>&1 && goto copied\r\n");
    reveal_strlit("set /a tries+=1\r\nif %tries% geq 10 goto copyfailed\r\ngoto copyloop\r\n");
    reveal_strlit(":copyfailed\r\n");
    reveal_strlit("(goto) 2>nul & del \"%~f0\"\r\nexit /b 1\r\n:copied\r\n");
    reveal_strlit("(goto) 2>nul & del \"%~f0\"\r\nexit /b 1\r\n");
    reveal_strlit(":copied\r\n");
    let h = "@echo off\r\nchcp 65001 >nul\r\nset /a tries=0\r\n"@;
    let l1 = "@echo off\r\nchcp 65001 >nul\r\nset /a tries=0\r\n:copyloop\r\n"@;
    let cl = ":copyloop\r\n"@;
    assert(l1 =~= h + cl);
    let l6 = "\" >nul 2>&1 && goto copied\r\nset /a tries+=1\r\nif %tries% geq 10 goto copyfailed\r\ngoto copyloop\r\n:copyfailed\r\n"@;
    let a6 = "\" >nul 2>&1 && goto copied\r\n"@;
    let b6 = "set /a tries+=1\r\nif %tries% geq 10 goto copyfailed\r\ngoto copyloop\r\n"@;
    let c6 = ":copyfailed\r\n"@;
    assert(l6 =~= a6 + b6 + c6);
    let l7 = "(goto) 2>nul & del \"%~f0\"\r\nexit /b 1\r\n:copied\r\n"@;
    let a7 = "(goto) 2>nul & del \"%~f0\"\r\nexit /b 1\r\n"@;
    let b7 = ":copied\r\n"@;
    assert(l7 =~= a7 + b7);
    let w = "wscript //B //Nologo \""@;
    let q1 = "\" >nul 2>&1\r\n"@;
    let cp = "copy /y \""@;
    let q2 = "\" \""@;
    let st = "start \"\" \""@;
    let tail = "\"\r\n(goto) 2>nul & del \"%~f0\"\r\n"@;
    let lhs = l1 + w + sleep_vbs + q1 + cp + new_exe + q2 + current_exe + l6 + c + l7 + c + st + current_exe + tail;
    assert(spec_updater_bat(new_exe, current_exe, downloaded, extract_dir, sleep_vbs, launcher_vbs) == lhs);
    let rhs = h + (cl + w + sleep_vbs + q1 + cp + new_exe + q2 + current_exe + a6 + b6) + (c6 + c + a7) + (b7 + c + st
        + current_exe + tail);
    assert(lhs =~= rhs);
}

} // verus!
