//! Wire frames: the exact byte strings the server writes, CRLF-terminated,
//! stated as specs and built by verified code.

use vstd::prelude::*;

use crate::bytes::{append_bytes, append_dec, append_str, ascii, dec_digits};

verus! {

pub open spec fn crlf() -> Seq<u8> {
    ascii("\r\n"@)
}

/// `ERROR :<msg>\r\n`
pub open spec fn error_frame(msg: Seq<u8>) -> Seq<u8> {
    ascii("ERROR :"@) + msg + crlf()
}

/// `:<uid> JOIN <chan>\r\n`
pub open spec fn self_join_frame(uid: Seq<u8>, chan: Seq<u8>) -> Seq<u8> {
    ascii(":"@) + uid + ascii(" JOIN "@) + chan + crlf()
}

/// `:<uid> PART <chan>\r\n`
pub open spec fn self_part_frame(uid: Seq<u8>, chan: Seq<u8>) -> Seq<u8> {
    ascii(":"@) + uid + ascii(" PART "@) + chan + crlf()
}

/// `:<chan> PRIVMSG <username> :<text>\r\n` — the per-member broadcast line.
pub open spec fn chan_privmsg_frame(chan: Seq<u8>, username: Seq<u8>, text: Seq<u8>) -> Seq<u8> {
    ascii(":"@) + chan + ascii(" PRIVMSG "@) + username + ascii(" :"@) + text + crlf()
}

/// `PRIVMSG <sender> :<msg>\r\n` — direct message delivery.
pub open spec fn private_frame(sender: Seq<u8>, msg: Seq<u8>) -> Seq<u8> {
    ascii("PRIVMSG "@) + sender + ascii(" :"@) + msg + crlf()
}

/// `* <username> has joined <chan>`
pub open spec fn joined_text(username: Seq<u8>, chan: Seq<u8>) -> Seq<u8> {
    ascii("* "@) + username + ascii(" has joined "@) + chan
}

/// `* <username> has left <chan>`
pub open spec fn left_text(username: Seq<u8>, chan: Seq<u8>) -> Seq<u8> {
    ascii("* "@) + username + ascii(" has left "@) + chan
}

/// `* <username> has disconnected`
pub open spec fn disconnected_text(username: Seq<u8>) -> Seq<u8> {
    ascii("* "@) + username + ascii(" has disconnected"@)
}

/// `* <username> has been disconnected due to inactivity`
pub open spec fn inactive_text(username: Seq<u8>) -> Seq<u8> {
    ascii("* "@) + username + ascii(" has been disconnected due to inactivity"@)
}

/// `<username> <msg>` with the name in angle brackets.
pub open spec fn formatted_msg(username: Seq<u8>, msg: Seq<u8>) -> Seq<u8> {
    ascii("<"@) + username + ascii("> "@) + msg
}

/// `NOTICE :All your messages have been securely deleted\r\n`
pub open spec fn secure_clear_notice() -> Seq<u8> {
    ascii("NOTICE :All your messages have been securely deleted\r\n"@)
}

/// `NOTICE :SECURITY: <n> messages have been automatically deleted\r\n`
pub open spec fn channel_sweep_notice(n: nat) -> Seq<u8> {
    ascii("NOTICE :SECURITY: "@) + dec_digits(n) + ascii(
        " messages have been automatically deleted\r\n"@,
    )
}

/// `NOTICE :SECURITY: <n> private messages have been automatically deleted\r\n`
pub open spec fn private_sweep_notice(n: nat) -> Seq<u8> {
    ascii("NOTICE :SECURITY: "@) + dec_digits(n) + ascii(
        " private messages have been automatically deleted\r\n"@,
    )
}

/// The inactivity disconnect notice.
pub open spec fn inactivity_notice() -> Seq<u8> {
    ascii(
        "NOTICE :SECURITY: You have been disconnected due to inactivity. All messages have been deleted.\r\n"@,
    )
}

/// `:server 001 <uid> :Welcome to the Secure IRC Server, <username>\r\n`
pub open spec fn welcome_frame(uid: Seq<u8>, username: Seq<u8>) -> Seq<u8> {
    ascii(":server 001 "@) + uid + ascii(" :Welcome to the Secure IRC Server, "@) + username
        + crlf()
}

/// `:server NOTICE <uid> :SECURITY: All messages will be deleted after <m> minutes\r\n`
pub open spec fn ttl_notice_frame(uid: Seq<u8>, minutes: nat) -> Seq<u8> {
    ascii(":server NOTICE "@) + uid + ascii(" :SECURITY: All messages will be deleted after "@)
        + dec_digits(minutes) + ascii(" minutes\r\n"@)
}

/// `:server 322 <uid> <name> <n> :<topic>\r\n` — one LIST entry.
pub open spec fn list_entry(uid: Seq<u8>, name: Seq<u8>, members: nat, topic: Seq<u8>) -> Seq<u8> {
    ascii(":server 322 "@) + uid + ascii(" "@) + name + ascii(" "@) + dec_digits(members) + ascii(
        " :"@,
    ) + topic + crlf()
}

/// `:server 323 <uid> :End of LIST\r\n`
pub open spec fn list_end(uid: Seq<u8>) -> Seq<u8> {
    ascii(":server 323 "@) + uid + ascii(" :End of LIST\r\n"@)
}

/// `:server 352 <uid> <chan> <username> hostname server <username> H :0 <username>\r\n`
pub open spec fn who_entry(uid: Seq<u8>, chan: Seq<u8>, username: Seq<u8>) -> Seq<u8> {
    ascii(":server 352 "@) + uid + ascii(" "@) + chan + ascii(" "@) + username + ascii(
        " hostname server "@,
    ) + username + ascii(" H :0 "@) + username + crlf()
}

/// `:server 315 <uid> <chan> :End of WHO list\r\n`
pub open spec fn who_end(uid: Seq<u8>, chan: Seq<u8>) -> Seq<u8> {
    ascii(":server 315 "@) + uid + ascii(" "@) + chan + ascii(" :End of WHO list\r\n"@)
}

// ---------------------------------------------------------------------------
// Builders.
// ---------------------------------------------------------------------------

/// Builds `<p><a><q>`.
pub fn cat_a(p: &str, a: &[u8], q: &str) -> (r: Vec<u8>)
    requires
        p.is_ascii(),
        q.is_ascii(),
    ensures
        r@ == ascii(p@) + a@ + ascii(q@),
{
    let mut out: Vec<u8> = Vec::new();
    append_str(&mut out, p);
    append_bytes(&mut out, a);
    append_str(&mut out, q);
    out
}

/// Builds `<p><a><q><b><s>`.
pub fn cat_b(p: &str, a: &[u8], q: &str, b: &[u8], s: &str) -> (r: Vec<u8>)
    requires
        p.is_ascii(),
        q.is_ascii(),
        s.is_ascii(),
    ensures
        r@ == ascii(p@) + a@ + ascii(q@) + b@ + ascii(s@),
{
    let mut out: Vec<u8> = Vec::new();
    append_str(&mut out, p);
    append_bytes(&mut out, a);
    append_str(&mut out, q);
    append_bytes(&mut out, b);
    append_str(&mut out, s);
    out
}

/// Builds `<p><a><q><b><s><c><t>`.
pub fn cat_c(p: &str, a: &[u8], q: &str, b: &[u8], s: &str, c: &[u8], t: &str) -> (r: Vec<u8>)
    requires
        p.is_ascii(),
        q.is_ascii(),
        s.is_ascii(),
        t.is_ascii(),
    ensures
        r@ == ascii(p@) + a@ + ascii(q@) + b@ + ascii(s@) + c@ + ascii(t@),
{
    let mut out: Vec<u8> = Vec::new();
    append_str(&mut out, p);
    append_bytes(&mut out, a);
    append_str(&mut out, q);
    append_bytes(&mut out, b);
    append_str(&mut out, s);
    append_bytes(&mut out, c);
    append_str(&mut out, t);
    out
}

pub fn build_error_frame(msg: &[u8]) -> (r: Vec<u8>)
    ensures
        r@ == error_frame(msg@),
{
    proof {
        reveal_strlit("ERROR :");
        reveal_strlit("\r\n");
        assert(("ERROR :").is_ascii());
        assert(("\r\n").is_ascii());
    }
    cat_a("ERROR :", msg, "\r\n")
}

pub fn build_self_join_frame(uid: &[u8], chan: &[u8]) -> (r: Vec<u8>)
    ensures
        r@ == self_join_frame(uid@, chan@),
{
    proof {
        reveal_strlit(":");
        reveal_strlit(" JOIN ");
        reveal_strlit("\r\n");
        assert((":").is_ascii());
        assert((" JOIN ").is_ascii());
        assert(("\r\n").is_ascii());
    }
    cat_b(":", uid, " JOIN ", chan, "\r\n")
}

pub fn build_self_part_frame(uid: &[u8], chan: &[u8]) -> (r: Vec<u8>)
    ensures
        r@ == self_part_frame(uid@, chan@),
{
    proof {
        reveal_strlit(":");
        reveal_strlit(" PART ");
        reveal_strlit("\r\n");
        assert((":").is_ascii());
        assert((" PART ").is_ascii());
        assert(("\r\n").is_ascii());
    }
    cat_b(":", uid, " PART ", chan, "\r\n")
}

pub fn build_chan_privmsg_frame(chan: &[u8], username: &[u8], text: &[u8]) -> (r: Vec<u8>)
    ensures
        r@ == chan_privmsg_frame(chan@, username@, text@),
{
    proof {
        reveal_strlit(":");
        reveal_strlit(" PRIVMSG ");
        reveal_strlit(" :");
        reveal_strlit("\r\n");
        assert((":").is_ascii());
        assert((" PRIVMSG ").is_ascii());
        assert((" :").is_ascii());
        assert(("\r\n").is_ascii());
    }
    cat_c(":", chan, " PRIVMSG ", username, " :", text, "\r\n")
}

pub fn build_private_frame(sender: &[u8], msg: &[u8]) -> (r: Vec<u8>)
    ensures
        r@ == private_frame(sender@, msg@),
{
    proof {
        reveal_strlit("PRIVMSG ");
        reveal_strlit(" :");
        reveal_strlit("\r\n");
        assert(("PRIVMSG ").is_ascii());
        assert((" :").is_ascii());
        assert(("\r\n").is_ascii());
    }
    cat_b("PRIVMSG ", sender, " :", msg, "\r\n")
}

pub fn build_joined_text(username: &[u8], chan: &[u8]) -> (r: Vec<u8>)
    ensures
        r@ == joined_text(username@, chan@),
{
    proof {
        reveal_strlit("* ");
        reveal_strlit(" has joined ");
        reveal_strlit("");
        assert(("* ").is_ascii());
        assert((" has joined ").is_ascii());
        assert(("").is_ascii());
        assert(ascii(""@) =~= Seq::<u8>::empty());
    }
    let r = cat_b("* ", username, " has joined ", chan, "");
    proof {
        assert(r@ =~= joined_text(username@, chan@));
    }
    r
}

pub fn build_left_text(username: &[u8], chan: &[u8]) -> (r: Vec<u8>)
    ensures
        r@ == left_text(username@, chan@),
{
    proof {
        reveal_strlit("* ");
        reveal_strlit(" has left ");
        reveal_strlit("");
        assert(("* ").is_ascii());
        assert((" has left ").is_ascii());
        assert(("").is_ascii());
    }
    let r = cat_b("* ", username, " has left ", chan, "");
    proof {
        assert(r@ =~= left_text(username@, chan@));
    }
    r
}

pub fn build_disconnected_text(username: &[u8]) -> (r: Vec<u8>)
    ensures
        r@ == disconnected_text(username@),
{
    proof {
        reveal_strlit("* ");
        reveal_strlit(" has disconnected");
        assert(("* ").is_ascii());
        assert((" has disconnected").is_ascii());
    }
    cat_a("* ", username, " has disconnected")
}

pub fn build_inactive_text(username: &[u8]) -> (r: Vec<u8>)
    ensures
        r@ == inactive_text(username@),
{
    proof {
        reveal_strlit("* ");
        reveal_strlit(" has been disconnected due to inactivity");
        assert(("* ").is_ascii());
        assert((" has been disconnected due to inactivity").is_ascii());
    }
    cat_a("* ", username, " has been disconnected due to inactivity")
}

pub fn build_formatted_msg(username: &[u8], msg: &[u8]) -> (r: Vec<u8>)
    ensures
        r@ == formatted_msg(username@, msg@),
{
    proof {
        reveal_strlit("<");
        reveal_strlit("> ");
        reveal_strlit("");
        assert(("<").is_ascii());
        assert(("> ").is_ascii());
        assert(("").is_ascii());
    }
    let r = cat_b("<", username, "> ", msg, "");
    proof {
        assert(r@ =~= formatted_msg(username@, msg@));
    }
    r
}

pub fn build_secure_clear_notice() -> (r: Vec<u8>)
    ensures
        r@ == secure_clear_notice(),
{
    proof {
        reveal_strlit("NOTICE :All your messages have been securely deleted\r\n");
        assert(("NOTICE :All your messages have been securely deleted\r\n").is_ascii());
    }
    let mut out: Vec<u8> = Vec::new();
    append_str(&mut out, "NOTICE :All your messages have been securely deleted\r\n");
    proof {
        assert(out@ =~= secure_clear_notice());
    }
    out
}

pub fn build_channel_sweep_notice(n: u64) -> (r: Vec<u8>)
    ensures
        r@ == channel_sweep_notice(n as nat),
{
    proof {
        reveal_strlit("NOTICE :SECURITY: ");
        reveal_strlit(" messages have been automatically deleted\r\n");
        assert(("NOTICE :SECURITY: ").is_ascii());
        assert((" messages have been automatically deleted\r\n").is_ascii());
    }
    let mut out: Vec<u8> = Vec::new();
    append_str(&mut out, "NOTICE :SECURITY: ");
    append_dec(&mut out, n);
    append_str(&mut out, " messages have been automatically deleted\r\n");
    out
}

pub fn build_private_sweep_notice(n: u64) -> (r: Vec<u8>)
    ensures
        r@ == private_sweep_notice(n as nat),
{
    proof {
        reveal_strlit("NOTICE :SECURITY: ");
        reveal_strlit(" private messages have been automatically deleted\r\n");
        assert(("NOTICE :SECURITY: ").is_ascii());
        assert((" private messages have been automatically deleted\r\n").is_ascii());
    }
    let mut out: Vec<u8> = Vec::new();
    append_str(&mut out, "NOTICE :SECURITY: ");
    append_dec(&mut out, n);
    append_str(&mut out, " private messages have been automatically deleted\r\n");
    out
}

pub fn build_inactivity_notice() -> (r: Vec<u8>)
    ensures
        r@ == inactivity_notice(),
{
    proof {
        reveal_strlit(
            "NOTICE :SECURITY: You have been disconnected due to inactivity. All messages have been deleted.\r\n",
        );
        assert((
        "NOTICE :SECURITY: You have been disconnected due to inactivity. All messages have been deleted.\r\n").is_ascii());
    }
    let mut out: Vec<u8> = Vec::new();
    append_str(
        &mut out,
        "NOTICE :SECURITY: You have been disconnected due to inactivity. All messages have been deleted.\r\n",
    );
    proof {
        assert(out@ =~= inactivity_notice());
    }
    out
}

pub fn build_welcome_frame(uid: &[u8], username: &[u8]) -> (r: Vec<u8>)
    ensures
        r@ == welcome_frame(uid@, username@),
{
    proof {
        reveal_strlit(":server 001 ");
        reveal_strlit(" :Welcome to the Secure IRC Server, ");
        reveal_strlit("\r\n");
        assert((":server 001 ").is_ascii());
        assert((" :Welcome to the Secure IRC Server, ").is_ascii());
        assert(("\r\n").is_ascii());
    }
    cat_b(":server 001 ", uid, " :Welcome to the Secure IRC Server, ", username, "\r\n")
}

pub fn build_ttl_notice_frame(uid: &[u8], minutes: u64) -> (r: Vec<u8>)
    ensures
        r@ == ttl_notice_frame(uid@, minutes as nat),
{
    proof {
        reveal_strlit(":server NOTICE ");
        reveal_strlit(" :SECURITY: All messages will be deleted after ");
        reveal_strlit(" minutes\r\n");
        assert((":server NOTICE ").is_ascii());
        assert((" :SECURITY: All messages will be deleted after ").is_ascii());
        assert((" minutes\r\n").is_ascii());
    }
    let mut out: Vec<u8> = Vec::new();
    append_str(&mut out, ":server NOTICE ");
    append_bytes(&mut out, uid);
    append_str(&mut out, " :SECURITY: All messages will be deleted after ");
    append_dec(&mut out, minutes);
    append_str(&mut out, " minutes\r\n");
    out
}

/// Appends one LIST entry to `out`.
pub fn append_list_entry(out: &mut Vec<u8>, uid: &[u8], name: &[u8], members: u64, topic: &[u8])
    ensures
        final(out)@ == old(out)@ + list_entry(uid@, name@, members as nat, topic@),
{
    proof {
        reveal_strlit(":server 322 ");
        reveal_strlit(" ");
        reveal_strlit(" :");
        reveal_strlit("\r\n");
        assert((":server 322 ").is_ascii());
        assert((" ").is_ascii());
        assert((" :").is_ascii());
        assert(("\r\n").is_ascii());
    }
    append_str(out, ":server 322 ");
    append_bytes(out, uid);
    append_str(out, " ");
    append_bytes(out, name);
    append_str(out, " ");
    append_dec(out, members);
    append_str(out, " :");
    append_bytes(out, topic);
    append_str(out, "\r\n");
}

/// Appends the LIST terminator to `out`.
pub fn append_list_end(out: &mut Vec<u8>, uid: &[u8])
    ensures
        final(out)@ == old(out)@ + list_end(uid@),
{
    proof {
        reveal_strlit(":server 323 ");
        reveal_strlit(" :End of LIST\r\n");
        assert((":server 323 ").is_ascii());
        assert((" :End of LIST\r\n").is_ascii());
    }
    append_str(out, ":server 323 ");
    append_bytes(out, uid);
    append_str(out, " :End of LIST\r\n");
}

/// Appends one WHO entry to `out`.
pub fn append_who_entry(out: &mut Vec<u8>, uid: &[u8], chan: &[u8], username: &[u8])
    ensures
        final(out)@ == old(out)@ + who_entry(uid@, chan@, username@),
{
    proof {
        reveal_strlit(":server 352 ");
        reveal_strlit(" ");
        reveal_strlit(" hostname server ");
        reveal_strlit(" H :0 ");
        reveal_strlit("\r\n");
        assert((":server 352 ").is_ascii());
        assert((" ").is_ascii());
        assert((" hostname server ").is_ascii());
        assert((" H :0 ").is_ascii());
        assert(("\r\n").is_ascii());
    }
    append_str(out, ":server 352 ");
    append_bytes(out, uid);
    append_str(out, " ");
    append_bytes(out, chan);
    append_str(out, " ");
    append_bytes(out, username);
    append_str(out, " hostname server ");
    append_bytes(out, username);
    append_str(out, " H :0 ");
    append_bytes(out, username);
    append_str(out, "\r\n");
}

/// Appends the WHO terminator to `out`.
pub fn append_who_end(out: &mut Vec<u8>, uid: &[u8], chan: &[u8])
    ensures
        final(out)@ == old(out)@ + who_end(uid@, chan@),
{
    proof {
        reveal_strlit(":server 315 ");
        reveal_strlit(" ");
        reveal_strlit(" :End of WHO list\r\n");
        assert((":server 315 ").is_ascii());
        assert((" ").is_ascii());
        assert((" :End of WHO list\r\n").is_ascii());
    }
    append_str(out, ":server 315 ");
    append_bytes(out, uid);
    append_str(out, " ");
    append_bytes(out, chan);
    append_str(out, " :End of WHO list\r\n");
}

} // verus!
