//! Requests and results as text for a human reader.

use vstd::prelude::*;
use vstd::string::*;

use crate::model::{MarketAction, MatchingResult, Request, RequestAction, Side, Type};

verus! {

/// The decimal digit `d` as a character.
pub open spec fn digit(d: nat) -> char {
    ('0' as nat + d) as char
}

/// `n` in decimal notation, without leading zeros.
pub open spec fn decimal(n: nat) -> Seq<char>
    decreases n,
{
    if n < 10 {
        seq![digit(n)]
    } else {
        decimal(n / 10).push(digit(n % 10))
    }
}

/// `parts` one after the other, with `separator` between each two.
pub open spec fn joined(parts: Seq<Seq<char>>, separator: Seq<char>) -> Seq<char>
    decreases parts.len(),
{
    if parts.len() == 0 {
        Seq::empty()
    } else if parts.len() == 1 {
        parts[0]
    } else {
        joined(parts.drop_last(), separator) + separator + parts.last()
    }
}

/// The digit `d` as a string.
fn digit_str(d: u64) -> (s: &'static str)
    requires
        d < 10,
    ensures
        s@ == seq![digit(d as nat)],
{
    proof {
        reveal_strlit("0");
        reveal_strlit("1");
        reveal_strlit("2");
        reveal_strlit("3");
        reveal_strlit("4");
        reveal_strlit("5");
        reveal_strlit("6");
        reveal_strlit("7");
        reveal_strlit("8");
        reveal_strlit("9");
    }
    let s = match d {
        0 => "0",
        1 => "1",
        2 => "2",
        3 => "3",
        4 => "4",
        5 => "5",
        6 => "6",
        7 => "7",
        8 => "8",
        _ => "9",
    };
    assert(s@ =~= seq![digit(d as nat)]);
    s
}

/// Appends `n` in decimal notation to `out`.
pub fn push_decimal(out: &mut String, n: u64)
    ensures
        final(out)@ == old(out)@ + decimal(n as nat),
    decreases n,
{
    if n >= 10 {
        push_decimal(out, n / 10);
    }
    out.append(digit_str(n % 10));
    assert(out@ =~= old(out)@ + decimal(n as nat));
}

impl Side {
    /// The verb for an order of this side.
    pub open spec fn text(self) -> Seq<char> {
        match self {
            Side::Sell => "sell"@,
            Side::Buy => "buy"@,
        }
    }

    /// Executable form of [`Side::text`].
    pub fn as_str(&self) -> (s: &'static str)
        ensures
            s@ == self.text(),
    {
        match self {
            Side::Sell => "sell",
            Side::Buy => "buy",
        }
    }
}

impl Type {
    /// The name of this kind of request.
    pub open spec fn text(self) -> Seq<char> {
        match self {
            Type::Limit => "Limit"@,
            Type::ImmediateOrCancel => "Immediate or cancel"@,
            Type::FillOrKill => "Fill or kill"@,
        }
    }

    /// Executable form of [`Type::text`].
    pub fn as_str(&self) -> (s: &'static str)
        ensures
            s@ == self.text(),
    {
        match self {
            Type::Limit => "Limit",
            Type::ImmediateOrCancel => "Immediate or cancel",
            Type::FillOrKill => "Fill or kill",
        }
    }
}

impl RequestAction {
    /// What became of the request, in words.
    pub open spec fn text(self) -> Seq<char> {
        match self {
            RequestAction::Filled => "satisfied"@,
            RequestAction::FilledPartially => "satisfied partially"@,
            RequestAction::Cancelled => "cancelled"@,
            RequestAction::AddedToBook => "added to the market"@,
        }
    }

    /// Executable form of [`RequestAction::text`].
    pub fn as_str(&self) -> (s: &'static str)
        ensures
            s@ == self.text(),
    {
        match self {
            RequestAction::Filled => "satisfied",
            RequestAction::FilledPartially => "satisfied partially",
            RequestAction::Cancelled => "cancelled",
            RequestAction::AddedToBook => "added to the market",
        }
    }

    /// What became of the request, in words.
    pub fn to_string(&self) -> (s: String)
        ensures
            s@ == self.text(),
    {
        String::from_str(self.as_str())
    }
}

impl MarketAction {
    /// The trade in one sentence.
    pub open spec fn text(self) -> Seq<char> {
        "User #"@ + decimal(self.seller_user_id as nat) + " sold "@ + decimal(self.size as nat)
            + " pieces at price point '"@ + decimal(self.price as nat) + "' to user #"@ + decimal(
            self.buyer_user_id as nat,
        )
    }

    /// Appends the trade in one sentence to `out`.
    pub fn write_to(&self, out: &mut String)
        ensures
            final(out)@ == old(out)@ + self.text(),
    {
        out.append("User #");
        push_decimal(out, self.seller_user_id);
        out.append(" sold ");
        push_decimal(out, self.size);
        out.append(" pieces at price point '");
        push_decimal(out, self.price);
        out.append("' to user #");
        push_decimal(out, self.buyer_user_id);
        assert(out@ =~= old(out)@ + self.text());
    }

    /// The trade in one sentence.
    pub fn to_string(&self) -> (s: String)
        ensures
            s@ == self.text(),
    {
        let mut s = String::new();
        self.write_to(&mut s);
        assert(s@ =~= self.text());
        s
    }
}

impl Request {
    /// The request in one sentence.
    pub open spec fn text(self) -> Seq<char> {
        "Incoming "@ + self.request_type.text() + " request from user #"@ + decimal(
            self.user_id as nat,
        ) + " to "@ + self.side.text() + " "@ + decimal(self.size as nat)
            + " pieces at price point '"@ + decimal(self.price as nat) + "'"@
    }

    /// The request in one sentence.
    pub fn to_string(&self) -> (s: String)
        ensures
            s@ == self.text(),
    {
        let mut s = String::from_str("Incoming ");
        s.append(self.request_type.as_str());
        s.append(" request from user #");
        push_decimal(&mut s, self.user_id);
        s.append(" to ");
        s.append(self.side.as_str());
        s.append(" ");
        push_decimal(&mut s, self.size);
        s.append(" pieces at price point '");
        push_decimal(&mut s, self.price);
        s.append("'");
        s
    }
}

impl MatchingResult {
    /// How the request was resolved, each step in words.
    pub open spec fn resolution_texts(&self) -> Seq<Seq<char>> {
        self.request_actions@.map_values(|action: RequestAction| action.text())
    }

    /// The trades, each in one sentence.
    pub open spec fn trade_texts(&self) -> Seq<Seq<char>> {
        self.market_actions@.map_values(|trade: MarketAction| trade.text())
    }

    /// The result as text: how the request was resolved and, where there
    /// were trades, one line for each.
    pub open spec fn text(&self) -> Seq<char> {
        let resolved = "Request was "@ + joined(self.resolution_texts(), ", "@);
        if self.market_actions@.len() == 0 {
            resolved
        } else {
            resolved + " and the following actions were performed on the market:\n"@ + joined(
                self.trade_texts(),
                "\n"@,
            )
        }
    }

    /// The result as text.
    pub fn to_string(&self) -> (s: String)
        ensures
            s@ == self.text(),
    {
        let mut s = String::from_str("Request was ");
        let ghost steps = self.resolution_texts();
        let mut i: usize = 0;
        assert(steps.take(0) =~= Seq::<Seq<char>>::empty());
        while i < self.request_actions.len()
            invariant
                i <= self.request_actions@.len(),
                steps == self.resolution_texts(),
                s@ == "Request was "@ + joined(steps.take(i as int), ", "@),
            decreases self.request_actions@.len() - i,
        {
            if i > 0 {
                s.append(", ");
            }
            s.append(self.request_actions[i].as_str());
            assert(steps.take(i + 1).drop_last() =~= steps.take(i as int));
            assert(steps.take(i + 1).last() == self.request_actions@[i as int].text());
            assert(s@ =~= "Request was "@ + joined(steps.take(i + 1), ", "@));
            i += 1;
        }
        assert(steps.take(i as int) =~= steps);
        if self.market_actions.len() > 0 {
            s.append(" and the following actions were performed on the market:\n");
            let ghost head = s@;
            let ghost lines = self.trade_texts();
            let mut j: usize = 0;
            assert(lines.take(0) =~= Seq::<Seq<char>>::empty());
            while j < self.market_actions.len()
                invariant
                    j <= self.market_actions@.len(),
                    lines == self.trade_texts(),
                    s@ == head + joined(lines.take(j as int), "\n"@),
                decreases self.market_actions@.len() - j,
            {
                if j > 0 {
                    s.append("\n");
                }
                self.market_actions[j].write_to(&mut s);
                assert(lines.take(j + 1).drop_last() =~= lines.take(j as int));
                assert(lines.take(j + 1).last() == self.market_actions@[j as int].text());
                assert(s@ =~= head + joined(lines.take(j + 1), "\n"@));
                j += 1;
            }
            assert(lines.take(j as int) =~= lines);
        }
        s
    }
}

} // verus!
