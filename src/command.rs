//! Command vocabulary: verbs and numeric reply codes.
use vstd::prelude::*;

use vstd::string::StringSliceAdditionalSpecFns;

use crate::text::bytes_eq;

verus! {

/// Numeric reply codes of the IRC protocol.
#[allow(non_camel_case_types)]
#[derive(Debug, Clone, Copy, PartialEq, Eq, Structural)]
pub enum ResponseCode {
    /// `Welcome to the Internet Relay Network <nick>!<user>@<host>`
    RPL_WELCOME,
    /// `<name> :End of WHO list`
    RPL_ENDOFWHO,
    /// `<channel> <mode> <mode params>`
    RPL_CHANNELMODEIS,
    /// `<channel> :No topic is set`
    RPL_NOTOPIC,
    /// `<channel> :<topic>`
    RPL_TOPIC,
    /// `<channel> <nick>`
    RPL_INVITING,
    /// `<channel> <invitemask>`
    RPL_INVITELIST,
    /// `<channel> :End of channel invite list`
    RPL_ENDOFINVITELIST,
    /// `<channel> <exceptionmask>`
    RPL_EXCEPTLIST,
    /// `<channel> :End of channel exception list`
    RPL_ENDOFEXCEPTLIST,
    /// `<channel> <user> <host> <server> <nick> <flags> :<hopcount> <real name>`
    RPL_WHOREPLY,
    /// `( "=" / "*" / "@" ) <channel> :[ "@" / "+" ] <nick> *( " " [ "@" / "+" ] <nick> )`
    RPL_NAMREPLY,
    /// `<channel> :End of NAMES list`
    RPL_ENDOFNAMES,
    /// `<channel> <banmask>`
    RPL_BANLIST,
    /// `<channel> :End of channel ban list`
    RPL_ENDOFBANLIST,
    /// `<nickname> :No such nick/channel`
    ERR_NOSUCHNICK,
    /// `<channel name> :No such channel`
    ERR_NOSUCHCHANNEL,
    /// `<target> :Too many targets`
    ERR_TOOMANYTARGETS,
    /// `<subcommand> :<reason>`
    ERR_INVALIDCAPCMD,
    /// `:No recipient given (<command>)`
    ERR_NORECIPIENT,
    /// `<command> :Unknown command`
    ERR_UNKNOWNCOMMAND,
    /// `:No nickname given`
    ERR_NONICKNAMEGIVEN,
    /// `<nick> :Erroneous nickname`
    ERR_ERRONEUSNICKNAME,
    /// `<nick> :Nickname is already in use`
    ERR_NICKNAMEINUSE,
    /// `<channel> :You're not on that channel`
    ERR_NOTONCHANNEL,
    /// `<user> <channel> :is already on channel`
    ERR_USERONCHANNEL,
    /// `<command> :Not enough parameters`
    ERR_NEEDMOREPARAMS,
    /// `:Unauthorized command (already registered)`
    ERR_ALREADYREGISTRED,
    /// `<channel> :Cannot join channel (+l)`
    ERR_CHANNELISFULL,
    /// `<char> :is unknown mode char to me for <channel>`
    ERR_UNKNOWNMODE,
    /// `<channel> :Cannot join channel (+i)`
    ERR_INVITEONLYCHAN,
    /// `<channel> :Cannot join channel (+b)`
    ERR_BANNEDFROMCHAN,
    /// `<channel> :Cannot join channel (+k)`
    ERR_BADCHANNELKEY,
    /// `<channel> :You're not channel operator`
    ERR_CHANOPRIVSNEEDED,
    /// `:Cannot change mode for other users`
    ERR_USERSDONTMATCH,
}

impl ResponseCode {
    /// The numeric value of the reply code.
    pub open spec fn spec_code(self) -> u16 {
        match self {
            ResponseCode::RPL_WELCOME => 1,
            ResponseCode::RPL_ENDOFWHO => 315,
            ResponseCode::RPL_CHANNELMODEIS => 324,
            ResponseCode::RPL_NOTOPIC => 331,
            ResponseCode::RPL_TOPIC => 332,
            ResponseCode::RPL_INVITING => 341,
            ResponseCode::RPL_INVITELIST => 346,
            ResponseCode::RPL_ENDOFINVITELIST => 347,
            ResponseCode::RPL_EXCEPTLIST => 348,
            ResponseCode::RPL_ENDOFEXCEPTLIST => 349,
            ResponseCode::RPL_WHOREPLY => 352,
            ResponseCode::RPL_NAMREPLY => 353,
            ResponseCode::RPL_ENDOFNAMES => 366,
            ResponseCode::RPL_BANLIST => 367,
            ResponseCode::RPL_ENDOFBANLIST => 368,
            ResponseCode::ERR_NOSUCHNICK => 401,
            ResponseCode::ERR_NOSUCHCHANNEL => 403,
            ResponseCode::ERR_TOOMANYTARGETS => 407,
            ResponseCode::ERR_INVALIDCAPCMD => 410,
            ResponseCode::ERR_NORECIPIENT => 411,
            ResponseCode::ERR_UNKNOWNCOMMAND => 421,
            ResponseCode::ERR_NONICKNAMEGIVEN => 431,
            ResponseCode::ERR_ERRONEUSNICKNAME => 432,
            ResponseCode::ERR_NICKNAMEINUSE => 433,
            ResponseCode::ERR_NOTONCHANNEL => 442,
            ResponseCode::ERR_USERONCHANNEL => 443,
            ResponseCode::ERR_NEEDMOREPARAMS => 461,
            ResponseCode::ERR_ALREADYREGISTRED => 462,
            ResponseCode::ERR_CHANNELISFULL => 471,
            ResponseCode::ERR_UNKNOWNMODE => 472,
            ResponseCode::ERR_INVITEONLYCHAN => 473,
            ResponseCode::ERR_BANNEDFROMCHAN => 474,
            ResponseCode::ERR_BADCHANNELKEY => 475,
            ResponseCode::ERR_CHANOPRIVSNEEDED => 482,
            ResponseCode::ERR_USERSDONTMATCH => 502,
        }
    }

    /// The numeric value of the reply code.
    pub fn code(&self) -> (r: u16)
        ensures
            r == self.spec_code(),
            1 <= r <= 999,
    {
        match self {
            ResponseCode::RPL_WELCOME => 1,
            ResponseCode::RPL_ENDOFWHO => 315,
            ResponseCode::RPL_CHANNELMODEIS => 324,
            ResponseCode::RPL_NOTOPIC => 331,
            ResponseCode::RPL_TOPIC => 332,
            ResponseCode::RPL_INVITING => 341,
            ResponseCode::RPL_INVITELIST => 346,
            ResponseCode::RPL_ENDOFINVITELIST => 347,
            ResponseCode::RPL_EXCEPTLIST => 348,
            ResponseCode::RPL_ENDOFEXCEPTLIST => 349,
            ResponseCode::RPL_WHOREPLY => 352,
            ResponseCode::RPL_NAMREPLY => 353,
            ResponseCode::RPL_ENDOFNAMES => 366,
            ResponseCode::RPL_BANLIST => 367,
            ResponseCode::RPL_ENDOFBANLIST => 368,
            ResponseCode::ERR_NOSUCHNICK => 401,
            ResponseCode::ERR_NOSUCHCHANNEL => 403,
            ResponseCode::ERR_TOOMANYTARGETS => 407,
            ResponseCode::ERR_INVALIDCAPCMD => 410,
            ResponseCode::ERR_NORECIPIENT => 411,
            ResponseCode::ERR_UNKNOWNCOMMAND => 421,
            ResponseCode::ERR_NONICKNAMEGIVEN => 431,
            ResponseCode::ERR_ERRONEUSNICKNAME => 432,
            ResponseCode::ERR_NICKNAMEINUSE => 433,
            ResponseCode::ERR_NOTONCHANNEL => 442,
            ResponseCode::ERR_USERONCHANNEL => 443,
            ResponseCode::ERR_NEEDMOREPARAMS => 461,
            ResponseCode::ERR_ALREADYREGISTRED => 462,
            ResponseCode::ERR_CHANNELISFULL => 471,
            ResponseCode::ERR_UNKNOWNMODE => 472,
            ResponseCode::ERR_INVITEONLYCHAN => 473,
            ResponseCode::ERR_BANNEDFROMCHAN => 474,
            ResponseCode::ERR_BADCHANNELKEY => 475,
            ResponseCode::ERR_CHANOPRIVSNEEDED => 482,
            ResponseCode::ERR_USERSDONTMATCH => 502,
        }
    }
}

/// The commands understood by the server (mainly RFC 1459).
#[derive(Debug, Clone, Copy, PartialEq, Eq, Structural)]
pub enum Command {
    /// `PRIVMSG <msgtarget> <text to be sent>`
    PRIVMSG,
    /// `NOTICE <nickname> <text>`
    NOTICE,
    /// `MODE <channel> {[+|-]|o|p|s|i|t|n|b|v} [<limit>] [<user>] [<ban mask>]`
    MODE,
    /// `JOIN <channel>{,<channel>} [<key>{,<key>}]`
    JOIN,
    /// `INVITE <nickname> <channel>`
    INVITE,
    /// `WHO [ <mask> [ "o" ] ]`
    WHO,
    /// `NAMES [ <channel> *( "," <channel> ) [ <target> ] ]`
    NAMES,
    /// `TOPIC <channel> [ <topic> ]`
    TOPIC,
    /// `PART <channel> *( "," <channel> ) [ <Part Message> ]`
    PART,
    /// `QUIT [<reason>]`
    QUIT,
    /// `NICK <nickname>`
    NICK,
    /// `USER <username> <hostname> <servername> <realname>`
    USER,
    /// `CAP <subcommand> [ <param> ]`
    CAP,
    /// A numeric reply, see `ResponseCode`.
    RESPONSE(ResponseCode),
}

/// The decimal digit `d` (0 to 9) as an ASCII byte.
pub open spec fn digit(d: int) -> u8 {
    (48 + d) as u8
}

/// A reply code written with exactly three decimal digits.
pub open spec fn three_digits(code: u16) -> Seq<u8> {
    seq![digit(code as int / 100), digit((code as int / 10) % 10), digit(code as int % 10)]
}

/// The wire name of a command.
pub open spec fn command_name(c: Command) -> Seq<u8> {
    match c {
        Command::PRIVMSG => seq!['P' as u8, 'R' as u8, 'I' as u8, 'V' as u8, 'M' as u8, 'S' as u8, 'G' as u8],
        Command::NOTICE => seq!['N' as u8, 'O' as u8, 'T' as u8, 'I' as u8, 'C' as u8, 'E' as u8],
        Command::MODE => seq!['M' as u8, 'O' as u8, 'D' as u8, 'E' as u8],
        Command::JOIN => seq!['J' as u8, 'O' as u8, 'I' as u8, 'N' as u8],
        Command::INVITE => seq!['I' as u8, 'N' as u8, 'V' as u8, 'I' as u8, 'T' as u8, 'E' as u8],
        Command::WHO => seq!['W' as u8, 'H' as u8, 'O' as u8],
        Command::NAMES => seq!['N' as u8, 'A' as u8, 'M' as u8, 'E' as u8, 'S' as u8],
        Command::TOPIC => seq!['T' as u8, 'O' as u8, 'P' as u8, 'I' as u8, 'C' as u8],
        Command::PART => seq!['P' as u8, 'A' as u8, 'R' as u8, 'T' as u8],
        Command::QUIT => seq!['Q' as u8, 'U' as u8, 'I' as u8, 'T' as u8],
        Command::NICK => seq!['N' as u8, 'I' as u8, 'C' as u8, 'K' as u8],
        Command::USER => seq!['U' as u8, 'S' as u8, 'E' as u8, 'R' as u8],
        Command::CAP => seq!['C' as u8, 'A' as u8, 'P' as u8],
        Command::RESPONSE(code) => three_digits(code.spec_code()),
    }
}

/// The verb whose wire name is `s`; numeric replies are not recognised.
pub open spec fn command_from_bytes(s: Seq<u8>) -> Option<Command> {
    if s == command_name(Command::PRIVMSG) {
        Some(Command::PRIVMSG)
    } else if s == command_name(Command::NOTICE) {
        Some(Command::NOTICE)
    } else if s == command_name(Command::MODE) {
        Some(Command::MODE)
    } else if s == command_name(Command::JOIN) {
        Some(Command::JOIN)
    } else if s == command_name(Command::INVITE) {
        Some(Command::INVITE)
    } else if s == command_name(Command::WHO) {
        Some(Command::WHO)
    } else if s == command_name(Command::NAMES) {
        Some(Command::NAMES)
    } else if s == command_name(Command::TOPIC) {
        Some(Command::TOPIC)
    } else if s == command_name(Command::PART) {
        Some(Command::PART)
    } else if s == command_name(Command::QUIT) {
        Some(Command::QUIT)
    } else if s == command_name(Command::NICK) {
        Some(Command::NICK)
    } else if s == command_name(Command::USER) {
        Some(Command::USER)
    } else if s == command_name(Command::CAP) {
        Some(Command::CAP)
    } else {
        None
    }
}

impl Command {
    /// The wire name of the command.
    pub fn name(&self) -> (r: Vec<u8>)
        ensures
            r@ == command_name(*self),
    {
        match self {
            Command::PRIVMSG => vec!['P' as u8, 'R' as u8, 'I' as u8, 'V' as u8, 'M' as u8, 'S' as u8, 'G' as u8],
            Command::NOTICE => vec!['N' as u8, 'O' as u8, 'T' as u8, 'I' as u8, 'C' as u8, 'E' as u8],
            Command::MODE => vec!['M' as u8, 'O' as u8, 'D' as u8, 'E' as u8],
            Command::JOIN => vec!['J' as u8, 'O' as u8, 'I' as u8, 'N' as u8],
            Command::INVITE => vec!['I' as u8, 'N' as u8, 'V' as u8, 'I' as u8, 'T' as u8, 'E' as u8],
            Command::WHO => vec!['W' as u8, 'H' as u8, 'O' as u8],
            Command::NAMES => vec!['N' as u8, 'A' as u8, 'M' as u8, 'E' as u8, 'S' as u8],
            Command::TOPIC => vec!['T' as u8, 'O' as u8, 'P' as u8, 'I' as u8, 'C' as u8],
            Command::PART => vec!['P' as u8, 'A' as u8, 'R' as u8, 'T' as u8],
            Command::QUIT => vec!['Q' as u8, 'U' as u8, 'I' as u8, 'T' as u8],
            Command::NICK => vec!['N' as u8, 'I' as u8, 'C' as u8, 'K' as u8],
            Command::USER => vec!['U' as u8, 'S' as u8, 'E' as u8, 'R' as u8],
            Command::CAP => vec!['C' as u8, 'A' as u8, 'P' as u8],
            Command::RESPONSE(code) => {
                let c = code.code();
                let v = vec![(48 + c / 100) as u8, (48 + (c / 10) % 10) as u8, (48 + c % 10) as u8];
                v
            },
        }
    }

    /// Recognises a command from its wire name.
    pub fn from_slice(cmd: &[u8]) -> (r: Option<Command>)
        ensures
            r == command_from_bytes(cmd@),
    {
        if bytes_eq(cmd, Command::PRIVMSG.name().as_slice()) {
            return Some(Command::PRIVMSG);
        }
        if bytes_eq(cmd, Command::NOTICE.name().as_slice()) {
            return Some(Command::NOTICE);
        }
        if bytes_eq(cmd, Command::MODE.name().as_slice()) {
            return Some(Command::MODE);
        }
        if bytes_eq(cmd, Command::JOIN.name().as_slice()) {
            return Some(Command::JOIN);
        }
        if bytes_eq(cmd, Command::INVITE.name().as_slice()) {
            return Some(Command::INVITE);
        }
        if bytes_eq(cmd, Command::WHO.name().as_slice()) {
            return Some(Command::WHO);
        }
        if bytes_eq(cmd, Command::NAMES.name().as_slice()) {
            return Some(Command::NAMES);
        }
        if bytes_eq(cmd, Command::TOPIC.name().as_slice()) {
            return Some(Command::TOPIC);
        }
        if bytes_eq(cmd, Command::PART.name().as_slice()) {
            return Some(Command::PART);
        }
        if bytes_eq(cmd, Command::QUIT.name().as_slice()) {
            return Some(Command::QUIT);
        }
        if bytes_eq(cmd, Command::NICK.name().as_slice()) {
            return Some(Command::NICK);
        }
        if bytes_eq(cmd, Command::USER.name().as_slice()) {
            return Some(Command::USER);
        }
        if bytes_eq(cmd, Command::CAP.name().as_slice()) {
            return Some(Command::CAP);
        }
        None
    }

    /// Recognises a command from its name.
    pub fn from_str(cmd: &str) -> (r: Option<Command>)
        ensures
            r == command_from_bytes(cmd.spec_bytes()),
    {
        Command::from_slice(cmd.as_bytes())
    }
}

} // verus!
