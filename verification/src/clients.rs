//! Client accounts: dollars and holdings of assets, and the ledger of all
//! clients.

use crate::errors::ClientErrors;
use crate::errors::GeneralErrors;
use crate::key_order::ascending;
use crate::orders::Order;
use crate::string_map::StringMap;
use crate::text::chars_of;
use crate::text::decimal;
use crate::text::write_unsigned;
use crate::text::cut;
use crate::text::field_spans;
use crate::text::fields;
use crate::text::is_word;
use crate::text::lemma_decimal_is_word;
use crate::text::lemma_decimal_reads_back;
use crate::text::lemma_fields_of_six_words;
use crate::text::parse_unsigned;
use crate::text::piece;
use crate::text::texts;
use crate::text::unsigned_decimal;
use crate::DataParser;
use vstd::prelude::*;
use vstd::string::StringExecFns;

verus! {

/// A holding of one asset.
#[derive(Debug)]
pub struct Asset {
    pub symbol: String,
    pub balance: u32,
}

/// What a holding says, with its symbol as a sequence of characters.
pub struct AssetView {
    pub symbol: Seq<char>,
    pub balance: u32,
}

impl View for Asset {
    type V = AssetView;

    open spec fn view(&self) -> AssetView {
        AssetView { symbol: self.symbol@, balance: self.balance }
    }
}

impl Clone for Asset {
    fn clone(&self) -> (r: Self)
        ensures
            r == *self,
    {
        Asset { symbol: self.symbol.clone(), balance: self.balance }
    }
}

/// The holdings of one client, by asset symbol.
#[derive(Debug)]
pub struct Assets {
    pub asset: StringMap<Asset>,
}

impl View for Assets {
    type V = Map<Seq<char>, AssetView>;

    open spec fn view(&self) -> Map<Seq<char>, AssetView> {
        Map::new(|k: Seq<char>| self.asset@.contains_key(k), |k: Seq<char>| self.asset@[k]@)
    }
}

impl Assets {
    /// No holdings.
    pub fn new() -> (r: Assets)
        ensures
            r@ == Map::<Seq<char>, AssetView>::empty(),
    {
        let r = Assets { asset: StringMap::new() };
        assert(r@ =~= Map::<Seq<char>, AssetView>::empty());
        r
    }

    /// The holding of the asset `asset_id`, if there is one, for changing it
    /// in place.
    pub fn get_mut(&mut self, asset_id: &str) -> (r: Option<&mut Asset>)
        ensures
            match r {
                Some(a) => old(self)@.contains_key(asset_id@) && a@ == old(self)@[asset_id@]
                    && final(self)@ == old(self)@.insert(asset_id@, final(a)@),
                None => !old(self)@.contains_key(asset_id@) && final(self)@ == old(self)@,
            },
    {
        self.asset.get_mut(asset_id)
    }

    /// A copy of the holding of the asset `asset_id`, if there is one.
    pub fn get(&self, asset_id: &str) -> (r: Option<Asset>)
        ensures
            match r {
                Some(a) => self@.contains_key(asset_id@) && a@ == self@[asset_id@],
                None => !self@.contains_key(asset_id@),
            },
    {
        match self.asset.get(asset_id) {
            Some(a) => Some(a.clone()),
            None => None,
        }
    }
}

impl Default for Assets {
    fn default() -> (r: Assets)
        ensures
            r@ == Map::<Seq<char>, AssetView>::empty(),
    {
        Assets::new()
    }
}

impl Clone for Assets {
    fn clone(&self) -> (r: Self)
        ensures
            r@ == self@,
    {
        let r = Assets { asset: self.asset.clone() };
        assert(r@ =~= self@);
        r
    }
}

/// A client: dollars, and holdings of assets.
#[derive(Debug)]
pub struct Client {
    /// The number of the client's record in the file that it was read from.
    pub index: usize,
    pub name: String,
    pub dollar_balance: u32,
    pub asset_balances: Assets,
}

/// What a client's account says, with its texts as sequences of characters.
pub struct ClientView {
    pub index: usize,
    pub name: Seq<char>,
    pub dollar_balance: u32,
    pub asset_balances: Map<Seq<char>, AssetView>,
}

impl View for Client {
    type V = ClientView;

    open spec fn view(&self) -> ClientView {
        ClientView {
            index: self.index,
            name: self.name@,
            dollar_balance: self.dollar_balance,
            asset_balances: self.asset_balances@,
        }
    }
}

impl Clone for Client {
    fn clone(&self) -> (r: Self)
        ensures
            r@ == self@,
    {
        Client {
            index: self.index,
            name: self.name.clone(),
            dollar_balance: self.dollar_balance,
            asset_balances: self.asset_balances.clone(),
        }
    }
}

impl ClientView {
    /// Whether the client has a holding of `asset`, be it of nothing.
    pub open spec fn holds(self, asset: Seq<char>) -> bool {
        self.asset_balances.contains_key(asset)
    }

    /// How much of `asset` the client holds.
    pub open spec fn holding(self, asset: Seq<char>) -> int {
        self.asset_balances[asset].balance as int
    }

    /// The account with the holding of `asset` set to `balance`.
    pub open spec fn with_holding(self, asset: Seq<char>, balance: int) -> ClientView {
        ClientView {
            asset_balances: self.asset_balances.insert(
                asset,
                AssetView { symbol: self.asset_balances[asset].symbol, balance: balance as u32 },
            ),
            ..self
        }
    }

    /// Whether the client has a holding of each of the assets `A`, `B`, `C`
    /// and `D`, as a line of a ledger file asks.
    pub open spec fn fit_to_write(self) -> bool {
        self.holds(seq!['A']) && self.holds(seq!['B']) && self.holds(seq!['C']) && self.holds(
            seq!['D'],
        )
    }

    /// Whether the client can pay for `quantity` units at `price` each.
    pub open spec fn can_pay(self, price: u32, quantity: u32) -> bool {
        price * quantity <= self.dollar_balance
    }

    /// Whether the client has a holding of `asset` with at least `quantity`
    /// units in it.
    pub open spec fn can_deliver(self, asset: Seq<char>, quantity: u32) -> bool {
        self.holds(asset) && quantity <= self.holding(asset)
    }

    /// Whether the account has room for `quantity` more units of `asset`: it
    /// has a holding of it, and the sum can be written in 32 bits.
    pub open spec fn can_take_asset(self, asset: Seq<char>, quantity: u32) -> bool {
        self.holds(asset) && self.holding(asset) + quantity <= u32::MAX
    }

    /// Whether the account has room for the price of `quantity` units at
    /// `price` each: the sum can be written in 32 bits.
    pub open spec fn can_take_dollars(self, price: u32, quantity: u32) -> bool {
        self.dollar_balance + price * quantity <= u32::MAX
    }

    /// The account after the client has bought `quantity` units of `asset` at
    /// `price` each: the dollars are paid and the units are added.
    pub open spec fn bought(self, asset: Seq<char>, price: u32, quantity: u32) -> ClientView {
        ClientView {
            dollar_balance: (self.dollar_balance - price * quantity) as u32,
            ..self.with_holding(asset, self.holding(asset) + quantity)
        }
    }

    /// The account after the client has sold `quantity` units of `asset` at
    /// `price` each: the units are taken and the dollars are added.
    pub open spec fn sold(self, asset: Seq<char>, price: u32, quantity: u32) -> ClientView {
        ClientView {
            dollar_balance: (self.dollar_balance + price * quantity) as u32,
            ..self.with_holding(asset, self.holding(asset) - quantity)
        }
    }
}

/// The product of two 32-bit numbers, which 64 bits always hold.
pub fn cost(price: u32, quantity: u32) -> (r: u64)
    ensures
        r == price * quantity,
{
    assert(price * quantity <= 0xFFFF_FFFF * 0xFFFF_FFFF) by (nonlinear_arith)
        requires
            price <= 0xFFFF_FFFF,
            quantity <= 0xFFFF_FFFF,
    ;
    (price as u64) * (quantity as u64)
}

impl Client {
    /// Tests whether the client has the dollars to buy the whole quantity of
    /// `order` at the price of `cache_order`.
    pub fn check_buy_error(&self, cache_order: &Order, order: &Order) -> (r: Result<
        (),
        GeneralErrors,
    >)
        ensures
            r == if self@.can_pay(cache_order.order_price, order.value) {
                Ok::<(), GeneralErrors>(())
            } else {
                Err::<(), GeneralErrors>(GeneralErrors::NotEnaughDollars)
            },
    {
        if (self.dollar_balance as u64) < cost(cache_order.order_price, order.value) {
            return Err(GeneralErrors::NotEnaughDollars);
        }
        Ok(())
    }

    /// Tests whether the client holds the whole quantity of `order` in the
    /// asset that `order` names.
    pub fn check_sell_error(&self, order: &Order) -> (r: Result<(), GeneralErrors>)
        ensures
            r == if !self@.holds(order.asset@) {
                Err::<(), GeneralErrors>(GeneralErrors::GetClientError)
            } else if self@.holding(order.asset@) < order.value {
                Err::<(), GeneralErrors>(GeneralErrors::NotEnaughAsset)
            } else {
                Ok::<(), GeneralErrors>(())
            },
    {
        match self.asset_balances.asset.get(order.asset.as_str()) {
            None => Err(GeneralErrors::GetClientError),
            Some(asset_balance) => {
                if asset_balance.balance < order.value {
                    Err(GeneralErrors::NotEnaughAsset)
                } else {
                    Ok(())
                }
            },
        }
    }

    /// Tests whether the account has room for `quantity` more units of
    /// `asset`.
    pub fn check_asset_room(&self, asset: &str, quantity: u32) -> (r: bool)
        ensures
            r == self@.can_take_asset(asset@, quantity),
    {
        match self.asset_balances.asset.get(asset) {
            None => false,
            Some(asset_balance) => asset_balance.balance <= u32::MAX - quantity,
        }
    }

    /// Tests whether the account has room for the price of `quantity` units
    /// at `price` each.
    pub fn check_dollar_room(&self, price: u32, quantity: u32) -> (r: bool)
        ensures
            r == self@.can_take_dollars(price, quantity),
    {
        cost(price, quantity) <= (u32::MAX - self.dollar_balance) as u64
    }

    /// Settles the buying side of a trade of `order_value` units at the price
    /// and in the asset of `cache_order`.
    pub fn buy(&mut self, cache_order: &Order, order_value: u32)
        requires
            old(self)@.can_pay(cache_order.order_price, order_value),
            old(self)@.can_take_asset(cache_order.asset@, order_value),
        ensures
            final(self)@ == old(self)@.bought(
                cache_order.asset@,
                cache_order.order_price,
                order_value,
            ),
    {
        let paid: u64 = cost(cache_order.order_price, order_value);
        match self.asset_balances.get_mut(cache_order.asset.as_str()) {
            Some(asset_balance) => {
                asset_balance.balance = asset_balance.balance + order_value;
            },
            None => {},
        }
        self.dollar_balance = self.dollar_balance - (paid as u32);
        assert(self@.asset_balances =~= old(self)@.bought(
            cache_order.asset@,
            cache_order.order_price,
            order_value,
        ).asset_balances);
    }

    /// Settles the selling side of a trade of `order_value` units at the
    /// price and in the asset of `cache_order`.
    pub fn sell(&mut self, cache_order: &Order, order_value: u32)
        requires
            old(self)@.can_deliver(cache_order.asset@, order_value),
            old(self)@.can_take_dollars(cache_order.order_price, order_value),
        ensures
            final(self)@ == old(self)@.sold(
                cache_order.asset@,
                cache_order.order_price,
                order_value,
            ),
    {
        let earned: u64 = cost(cache_order.order_price, order_value);
        match self.asset_balances.get_mut(cache_order.asset.as_str()) {
            Some(asset_balance) => {
                asset_balance.balance = asset_balance.balance - order_value;
            },
            None => {},
        }
        self.dollar_balance = self.dollar_balance + (earned as u32);
        assert(self@.asset_balances =~= old(self)@.sold(
            cache_order.asset@,
            cache_order.order_price,
            order_value,
        ).asset_balances);
    }
}

/// The holdings that a client record gives: of the assets `A`, `B`, `C` and
/// `D`, in this order.
pub open spec fn record_holdings(a: u32, b: u32, c: u32, d: u32) -> Map<Seq<char>, AssetView> {
    Map::<Seq<char>, AssetView>::empty().insert(
        seq!['A'],
        AssetView { symbol: seq!['A'], balance: a },
    ).insert(seq!['B'], AssetView { symbol: seq!['B'], balance: b }).insert(
        seq!['C'],
        AssetView { symbol: seq!['C'], balance: c },
    ).insert(seq!['D'], AssetView { symbol: seq!['D'], balance: d })
}

/// What a client record says. Its first six fields are the client's name,
/// the dollars, and the holdings of the assets `A`, `B`, `C` and `D`; further
/// fields are passed over. The client that is read has no number yet: its
/// index is 0.
pub open spec fn client_record(line: Seq<char>) -> Result<ClientView, ClientErrors> {
    let f = fields(line);
    if f.len() < 6 {
        Err(ClientErrors::ParseInsufficentInput)
    } else if unsigned_decimal(f[1]) is None {
        Err(ClientErrors::ParseDollarBalanceError)
    } else if unsigned_decimal(f[2]) is None || unsigned_decimal(f[3]) is None || unsigned_decimal(
        f[4],
    ) is None || unsigned_decimal(f[5]) is None {
        Err(ClientErrors::ParseAssetBalancesError)
    } else {
        Ok(
            ClientView {
                index: 0,
                name: f[0],
                dollar_balance: unsigned_decimal(f[1])->0,
                asset_balances: record_holdings(
                    unsigned_decimal(f[2])->0,
                    unsigned_decimal(f[3])->0,
                    unsigned_decimal(f[4])->0,
                    unsigned_decimal(f[5])->0,
                ),
            },
        )
    }
}

/// The line that stands for the client in a ledger file: the name, the
/// dollars and the holdings of the assets `A`, `B`, `C` and `D`, each but the
/// last followed by a tab, and the end of the line.
pub open spec fn client_line(c: ClientView) -> Seq<char> {
    c.name + seq!['\t'] + decimal(c.dollar_balance as nat) + seq!['\t'] + decimal(
        c.holding(seq!['A']) as nat,
    ) + seq!['\t'] + decimal(c.holding(seq!['B']) as nat) + seq!['\t'] + decimal(
        c.holding(seq!['C']) as nat,
    ) + seq!['\t'] + decimal(c.holding(seq!['D']) as nat) + seq!['\n']
}

/// A client whose name can stand as one field, and who has the holdings of a
/// client record and no others, is read back from the line that is written
/// for it, but for its number.
pub proof fn lemma_line_reads_back(c: ClientView, a: u32, b: u32, in_c: u32, d: u32)
    requires
        is_word(c.name),
        c.asset_balances == record_holdings(a, b, in_c, d),
    ensures
        client_record(client_line(c)) == Ok::<ClientView, ClientErrors>(
            ClientView { index: 0, ..c },
        ),
{
    assert(c.holding(seq!['A']) == a && c.holding(seq!['B']) == b && c.holding(seq!['C']) == in_c
        && c.holding(seq!['D']) == d) by {
        assert(seq!['A'][0] == 'A' && seq!['B'][0] == 'B' && seq!['C'][0] == 'C' && seq!['D'][0]
            == 'D');
    }
    let w = seq![
        c.name,
        decimal(c.dollar_balance as nat),
        decimal(a as nat),
        decimal(b as nat),
        decimal(in_c as nat),
        decimal(d as nat),
    ];
    lemma_decimal_is_word(c.dollar_balance as nat);
    lemma_decimal_is_word(a as nat);
    lemma_decimal_is_word(b as nat);
    lemma_decimal_is_word(in_c as nat);
    lemma_decimal_is_word(d as nat);
    lemma_fields_of_six_words(w, '\t', '\n');
    assert(fields(client_line(c)) == w);
    lemma_decimal_reads_back(c.dollar_balance as nat);
    lemma_decimal_reads_back(a as nat);
    lemma_decimal_reads_back(b as nat);
    lemma_decimal_reads_back(in_c as nat);
    lemma_decimal_reads_back(d as nat);
}

/// A holding of `balance` units of the asset that the one letter `symbol`
/// names.
fn holding_of(symbol: &str, balance: u32) -> (r: Asset)
    ensures
        r@ == (AssetView { symbol: symbol@, balance }),
{
    Asset { symbol: symbol.to_owned(), balance }
}

impl Client {
    /// How much of `asset` the client holds.
    fn held(&self, asset: &str) -> (r: u32)
        requires
            self@.holds(asset@),
        ensures
            r == self@.holding(asset@),
    {
        self.asset_balances.asset.get(asset).unwrap().balance
    }

    /// Tests whether the client has a holding of each of the assets `A`,
    /// `B`, `C` and `D`.
    pub fn has_line(&self) -> (r: bool)
        ensures
            r == self@.fit_to_write(),
    {
        proof {
            reveal_strlit("A");
            reveal_strlit("B");
            reveal_strlit("C");
            reveal_strlit("D");
            assert("A"@ =~= seq!['A']);
            assert("B"@ =~= seq!['B']);
            assert("C"@ =~= seq!['C']);
            assert("D"@ =~= seq!['D']);
        }
        self.asset_balances.asset.contains_key("A") && self.asset_balances.asset.contains_key("B")
            && self.asset_balances.asset.contains_key("C") && self.asset_balances.asset.contains_key(
            "D",
        )
    }

    /// Writes the line that stands for the client in a ledger file.
    pub fn line(&self) -> (r: String)
        requires
            self@.fit_to_write(),
        ensures
            r@ == client_line(self@),
    {
        proof {
            reveal_strlit("A");
            reveal_strlit("B");
            reveal_strlit("C");
            reveal_strlit("D");
            reveal_strlit("\t");
            reveal_strlit("\n");
            assert("A"@ =~= seq!['A']);
            assert("B"@ =~= seq!['B']);
            assert("C"@ =~= seq!['C']);
            assert("D"@ =~= seq!['D']);
            assert("\t"@ =~= seq!['\t']);
            assert("\n"@ =~= seq!['\n']);
        }
        let mut r = self.name.clone();
        r.append("\t");
        r.append(write_unsigned(self.dollar_balance).as_str());
        r.append("\t");
        r.append(write_unsigned(self.held("A")).as_str());
        r.append("\t");
        r.append(write_unsigned(self.held("B")).as_str());
        r.append("\t");
        r.append(write_unsigned(self.held("C")).as_str());
        r.append("\t");
        r.append(write_unsigned(self.held("D")).as_str());
        r.append("\n");
        r
    }

    /// Reads a client from a record.
    pub fn from_str(s: &str) -> (r: Result<Client, ClientErrors>)
        ensures
            match r {
                Ok(client) => client_record(s@) == Ok::<ClientView, ClientErrors>(client@),
                Err(e) => client_record(s@) == Err::<ClientView, ClientErrors>(e),
            },
    {
        let chars = chars_of(s);
        let spans = field_spans(&chars);
        let ghost f = fields(s@);
        assert(f == cut(chars@, spans@));
        if spans.len() < 6 {
            return Err(ClientErrors::ParseInsufficentInput);
        }
        assert(forall|k: int|
            0 <= k < 6 ==> #[trigger] f[k] == s@.subrange(spans[k].0 as int, spans[k].1 as int));
        let name = piece(s, spans[0].0, spans[0].1);
        let dollar_balance = match parse_unsigned(&chars, spans[1].0, spans[1].1) {
            Some(n) => n,
            None => {
                return Err(ClientErrors::ParseDollarBalanceError);
            },
        };
        let a = match parse_unsigned(&chars, spans[2].0, spans[2].1) {
            Some(n) => n,
            None => {
                return Err(ClientErrors::ParseAssetBalancesError);
            },
        };
        let b = match parse_unsigned(&chars, spans[3].0, spans[3].1) {
            Some(n) => n,
            None => {
                return Err(ClientErrors::ParseAssetBalancesError);
            },
        };
        let c = match parse_unsigned(&chars, spans[4].0, spans[4].1) {
            Some(n) => n,
            None => {
                return Err(ClientErrors::ParseAssetBalancesError);
            },
        };
        let d = match parse_unsigned(&chars, spans[5].0, spans[5].1) {
            Some(n) => n,
            None => {
                return Err(ClientErrors::ParseAssetBalancesError);
            },
        };
        proof {
            reveal_strlit("A");
            reveal_strlit("B");
            reveal_strlit("C");
            reveal_strlit("D");
            assert("A"@ =~= seq!['A']);
            assert("B"@ =~= seq!['B']);
            assert("C"@ =~= seq!['C']);
            assert("D"@ =~= seq!['D']);
        }
        let mut asset_balances = Assets::new();
        asset_balances.asset.insert("A".to_owned(), holding_of("A", a));
        asset_balances.asset.insert("B".to_owned(), holding_of("B", b));
        asset_balances.asset.insert("C".to_owned(), holding_of("C", c));
        asset_balances.asset.insert("D".to_owned(), holding_of("D", d));
        assert(asset_balances@ =~= record_holdings(a, b, c, d));
        Ok(Client { index: 0, name, dollar_balance, asset_balances })
    }
}

impl std::str::FromStr for Client {
    type Err = ClientErrors;

    /// Reads a client from a record.
    fn from_str(s: &str) -> (r: Result<Client, ClientErrors>)
        ensures
            match r {
                Ok(client) => client_record(s@) == Ok::<ClientView, ClientErrors>(client@),
                Err(e) => client_record(s@) == Err::<ClientView, ClientErrors>(e),
            },
    {
        Client::from_str(s)
    }
}

/// The ledger: every client, by name.
#[derive(Debug)]
pub struct Clients {
    pub client: StringMap<Client>,
}

impl View for Clients {
    type V = Map<Seq<char>, ClientView>;

    open spec fn view(&self) -> Map<Seq<char>, ClientView> {
        Map::new(|k: Seq<char>| self.client@.contains_key(k), |k: Seq<char>| self.client@[k]@)
    }
}

impl Clone for Clients {
    fn clone(&self) -> (r: Self)
        ensures
            r@ == self@,
    {
        let r = Clients { client: self.client.clone() };
        assert(r@ =~= self@);
        r
    }
}

/// The ledger that the records of `lines` give, or what is wrong with the
/// first record that cannot be read. The client of the first record gets the
/// number 1, that of the next the number 2, and so on; of two records with
/// one name the later one stays.
pub open spec fn ledger_of(lines: Seq<Seq<char>>) -> Result<Map<Seq<char>, ClientView>, ClientErrors>
    decreases lines.len(),
{
    if lines.len() == 0 {
        Ok(Map::empty())
    } else {
        match ledger_of(lines.drop_last()) {
            Err(e) => Err(e),
            Ok(ledger) => match client_record(lines.last()) {
                Err(e) => Err(e),
                Ok(c) => Ok(ledger.insert(c.name, ClientView { index: lines.len() as usize, ..c })),
            },
        }
    }
}

impl Clients {
    /// The client named `client_id`, if there is one, for changing the
    /// account in place.
    pub fn get_mut(&mut self, client_id: &str) -> (r: Option<&mut Client>)
        ensures
            match r {
                Some(c) => old(self)@.contains_key(client_id@) && c@ == old(self)@[client_id@]
                    && final(self)@ == old(self)@.insert(client_id@, final(c)@),
                None => !old(self)@.contains_key(client_id@) && final(self)@ == old(self)@,
            },
    {
        self.client.get_mut(client_id)
    }

    /// Reads the ledger from the lines of a file, one client from each line.
    pub fn from_lines(lines: &Vec<String>) -> (r: Result<Clients, ClientErrors>)
        ensures
            match r {
                Ok(clients) => ledger_of(texts(lines@)) == Ok::<
                    Map<Seq<char>, ClientView>,
                    ClientErrors,
                >(clients@),
                Err(e) => ledger_of(texts(lines@)) == Err::<
                    Map<Seq<char>, ClientView>,
                    ClientErrors,
                >(e),
            },
    {
        let mut clients = Clients::new();
        let n: usize = lines.len();
        let ghost all = texts(lines@);
        let mut i: usize = 0;
        assert(all.take(0) =~= Seq::<Seq<char>>::empty());
        while i < n
            invariant
                n == lines.len(),
                all == texts(lines@),
                i <= n,
                ledger_of(all.take(i as int)) == Ok::<Map<Seq<char>, ClientView>, ClientErrors>(
                    clients@,
                ),
            decreases n - i,
        {
            proof {
                assert(all.take(i + 1).drop_last() =~= all.take(i as int));
                assert(all.take(i + 1).last() == lines[i as int]@);
            }
            match Client::from_str(lines[i].as_str()) {
                Ok(client) => {
                    clients.insert(i + 1, client);
                },
                Err(e) => {
                    proof {
                        lemma_ledger_of_stays_wrong(all, i + 1);
                    }
                    return Err(e);
                },
            }
            i = i + 1;
        }
        assert(all.take(n as int) =~= all);
        Ok(clients)
    }

    /// Whether every client has a holding of each of the assets `A`, `B`,
    /// `C` and `D`, as a ledger file asks.
    pub open spec fn fit_to_write(&self) -> bool {
        forall|name: Seq<char>| #[trigger] self@.contains_key(name) ==> self@[name].fit_to_write()
    }

    /// Tests whether every client has a holding of each of the assets `A`,
    /// `B`, `C` and `D`.
    pub fn has_lines(&self) -> (r: bool)
        ensures
            r == self.fit_to_write(),
    {
        proof {
            use_type_invariant(&self.client);
            self.client.lemma_entries();
        }
        let n: usize = self.client.len();
        let mut i: usize = 0;
        while i < n
            invariant
                n == self.client.key_seq().len(),
                i <= n,
                forall|j: int|
                    0 <= j < i ==> self@[#[trigger] self.client.key_seq()[j]].fit_to_write(),
            decreases n - i,
        {
            let client = self.client.value_at(i);
            assert(self@.contains_key(self.client.key_seq()[i as int]));
            if !client.has_line() {
                return false;
            }
            i = i + 1;
        }
        proof {
            assert forall|name: Seq<char>| #[trigger] self@.contains_key(name) implies self@[name].fit_to_write() by {
                assert(self.client@.contains_key(name));
                assert(self.client.key_seq().to_set().contains(name));
                let j = choose|j: int|
                    0 <= j < self.client.key_seq().len() && self.client.key_seq()[j] == name;
                assert(self@[self.client.key_seq()[j]].fit_to_write());
            }
        }
        true
    }

    /// Writes the lines of a ledger file: one for each client, in ascending
    /// order of the names that the clients stand under.
    pub fn lines(&self) -> (r: Vec<String>)
        requires
            self.fit_to_write(),
        ensures
            ascending(self.client.key_seq()),
            r.len() == self.client.key_seq().len(),
            forall|i: int|
                0 <= i < r.len() ==> self@.contains_key(self.client.key_seq()[i]) && (
                #[trigger] r[i])@ == client_line(self@[self.client.key_seq()[i]]),
    {
        proof {
            use_type_invariant(&self.client);
            self.client.lemma_entries();
        }
        let n: usize = self.client.len();
        let mut r: Vec<String> = Vec::new();
        let mut i: usize = 0;
        while i < n
            invariant
                self.fit_to_write(),
                n == self.client.key_seq().len(),
                i <= n,
                r.len() == i,
                forall|j: int|
                    0 <= j < i ==> self@.contains_key(self.client.key_seq()[j]) && (
                    #[trigger] r[j])@ == client_line(self@[self.client.key_seq()[j]]),
            decreases n - i,
        {
            let client = self.client.value_at(i);
            assert(self@.contains_key(self.client.key_seq()[i as int]));
            r.push(client.line());
            i = i + 1;
        }
        r
    }

    /// A copy of the account of the client named `client_id`, if there is
    /// one.
    pub fn get(&self, client_id: &str) -> (r: Option<Client>)
        ensures
            match r {
                Some(c) => self@.contains_key(client_id@) && c@ == self@[client_id@],
                None => !self@.contains_key(client_id@),
            },
    {
        match self.client.get(client_id) {
            Some(c) => Some(c.clone()),
            None => None,
        }
    }
}

/// Where the first `k` records cannot all be read, no more records mend it:
/// what is wrong with them is what is wrong with the whole.
pub proof fn lemma_ledger_of_stays_wrong(lines: Seq<Seq<char>>, k: int)
    requires
        0 <= k <= lines.len(),
        ledger_of(lines.take(k)) is Err,
    ensures
        ledger_of(lines) == ledger_of(lines.take(k)),
    decreases lines.len(),
{
    if k == lines.len() {
        assert(lines.take(k) =~= lines);
    } else {
        assert(lines.drop_last().take(k) =~= lines.take(k));
        lemma_ledger_of_stays_wrong(lines.drop_last(), k);
    }
}

/// The names of the clients in `clients`.
pub open spec fn names_of(clients: Seq<Client>) -> Set<Seq<char>> {
    Set::new(|name: Seq<char>| exists|i: int| 0 <= i < clients.len() && #[trigger] clients[i].name@ == name)
}

impl DataParser for Clients {
    type Item = Client;

    type Err = ClientErrors;

    /// A ledger without clients.
    fn new() -> (r: Clients)
        ensures
            r@ == Map::<Seq<char>, ClientView>::empty(),
    {
        let r = Clients { client: StringMap::new() };
        assert(r@ =~= Map::<Seq<char>, ClientView>::empty());
        r
    }

    /// Enters `data` under its name, with `index` as its number, in place of
    /// any client of that name.
    fn insert(&mut self, index: usize, data: Client)
        ensures
            final(self)@ == old(self)@.insert(data.name@, ClientView { index, ..data@ }),
    {
        let mut data = data;
        data.index = index;
        self.client.insert(data.name.clone(), data);
        assert(self@ =~= old(self)@.insert(data.name@, ClientView { index, ..data@ }));
    }

    /// Reads a client from a record.
    fn parse(line: &str) -> (r: Result<Client, ClientErrors>)
        ensures
            match r {
                Ok(client) => client_record(line@) == Ok::<ClientView, ClientErrors>(client@),
                Err(e) => client_record(line@) == Err::<ClientView, ClientErrors>(e),
            },
    {
        Client::from_str(line)
    }

    /// Strikes from the ledger every client whose name one of `clients`
    /// bears.
    fn remove(&mut self, clients: Vec<Client>)
        ensures
            final(self)@ == old(self)@.remove_keys(names_of(clients@)),
    {
        let n: usize = clients.len();
        let mut i: usize = 0;
        assert(self@ =~= old(self)@.remove_keys(names_of(clients@.take(0))));
        while i < n
            invariant
                n == clients.len(),
                i <= n,
                self@ == old(self)@.remove_keys(names_of(clients@.take(i as int))),
            decreases n - i,
        {
            let ghost before = self@;
            self.client.remove(clients[i].name.as_str());
            proof {
                assert(self@ =~= before.remove(clients[i as int].name@));
                let done = clients@.take(i as int);
                let more = clients@.take(i + 1);
                assert(more[i as int].name@ == clients[i as int].name@);
                assert forall|name: Seq<char>| names_of(more).contains(name) <==> (names_of(
                    done,
                ).contains(name) || name == clients[i as int].name@) by {
                    if names_of(done).contains(name) {
                        let j = choose|j: int| 0 <= j < done.len() && #[trigger] done[j].name@ == name;
                        assert(more[j].name@ == name);
                    }
                    if names_of(more).contains(name) {
                        let j = choose|j: int| 0 <= j < more.len() && #[trigger] more[j].name@ == name;
                        if j < i {
                            assert(done[j].name@ == name);
                        }
                    }
                }
                assert(self@ =~= old(self)@.remove_keys(names_of(more)));
            }
            i = i + 1;
        }
        assert(clients@.take(n as int) =~= clients@);
    }
}

} // verus!
