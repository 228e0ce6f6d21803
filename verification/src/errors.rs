//! The failures that reading records and settling trades can report.

use vstd::prelude::*;

verus! {

/// Why a client record could not be read.
#[derive(Debug, Clone, Copy, PartialEq, Eq, Structural)]
pub enum ClientErrors {
    ParseClientIdError,
    ParseAssetBalancesError,
    ParseDollarBalanceError,
    ParseInsufficentInput,
}

/// Failures outside the reading of records: files, configuration, balances
/// and look-ups.
#[derive(Debug, Clone, Copy, PartialEq, Eq, Structural)]
pub enum GeneralErrors {
    ReadFileError,
    WriteFileError,
    GetConfigError,
    FileCreationError,
    NotEnaughDollars,
    NotEnaughAsset,
    NoSuchOperationError,
    GetClientError,
    GetOrderError,
    GetAssetError,
}

/// Why an order record could not be read.
#[derive(Debug, Clone, Copy, PartialEq, Eq, Structural)]
pub enum OrderErrors {
    ParseClientIdError,
    ParseOperationError,
    ParseSymbolError,
    ParseItemPriceError,
    ParseItemVolumeError,
    ParseInsufficentInputError,
    NoSuchOperationSymbolError,
}

impl ClientErrors {
    /// The sentence that describes the failure.
    pub open spec fn text(self) -> Seq<char> {
        match self {
            ClientErrors::ParseClientIdError => "Unable to parse client id"@,
            ClientErrors::ParseAssetBalancesError => "Unable to parse client asset balance"@,
            ClientErrors::ParseDollarBalanceError => "Unable to parse client dollar balance"@,
            ClientErrors::ParseInsufficentInput => "Can't parse client item: Insufficent input data"@,
        }
    }

    /// The sentence that describes the failure, for display.
    pub fn message(&self) -> (s: String)
        ensures
            s@ == self.text(),
    {
        match self {
            ClientErrors::ParseClientIdError => "Unable to parse client id".to_owned(),
            ClientErrors::ParseAssetBalancesError => "Unable to parse client asset balance".to_owned(),
            ClientErrors::ParseDollarBalanceError => "Unable to parse client dollar balance".to_owned(),
            ClientErrors::ParseInsufficentInput => "Can't parse client item: Insufficent input data".to_owned(),
        }
    }
}

impl GeneralErrors {
    /// The sentence that describes the failure.
    pub open spec fn text(self) -> Seq<char> {
        match self {
            GeneralErrors::ReadFileError => "Unable to read file"@,
            GeneralErrors::WriteFileError => "Unable to write file"@,
            GeneralErrors::GetConfigError => "Unable to get configuration"@,
            GeneralErrors::FileCreationError => "Error during file creation"@,
            GeneralErrors::NotEnaughDollars => "Your dollar balance can't be negative"@,
            GeneralErrors::NotEnaughAsset => "Your asset balance can't be negative"@,
            GeneralErrors::NoSuchOperationError => "No such operation"@,
            GeneralErrors::GetClientError => "Unable to get a client from the map"@,
            GeneralErrors::GetOrderError => "Unable to get an order from the map"@,
            GeneralErrors::GetAssetError => "Unable to get asset from the map"@,
        }
    }

    /// The sentence that describes the failure, for display.
    pub fn message(&self) -> (s: String)
        ensures
            s@ == self.text(),
    {
        match self {
            GeneralErrors::ReadFileError => "Unable to read file".to_owned(),
            GeneralErrors::WriteFileError => "Unable to write file".to_owned(),
            GeneralErrors::GetConfigError => "Unable to get configuration".to_owned(),
            GeneralErrors::FileCreationError => "Error during file creation".to_owned(),
            GeneralErrors::NotEnaughDollars => "Your dollar balance can't be negative".to_owned(),
            GeneralErrors::NotEnaughAsset => "Your asset balance can't be negative".to_owned(),
            GeneralErrors::NoSuchOperationError => "No such operation".to_owned(),
            GeneralErrors::GetClientError => "Unable to get a client from the map".to_owned(),
            GeneralErrors::GetOrderError => "Unable to get an order from the map".to_owned(),
            GeneralErrors::GetAssetError => "Unable to get asset from the map".to_owned(),
        }
    }
}

impl OrderErrors {
    /// The sentence that describes the failure.
    pub open spec fn text(self) -> Seq<char> {
        match self {
            OrderErrors::ParseClientIdError => "Unable to parse client Id"@,
            OrderErrors::ParseOperationError => "Unable to parse operation symbol"@,
            OrderErrors::ParseSymbolError => "Unable to parse asset"@,
            OrderErrors::ParseItemPriceError => "Unable to parse price"@,
            OrderErrors::ParseItemVolumeError => "Unable to parse volume"@,
            OrderErrors::ParseInsufficentInputError => "Can't parse order item: Insufficent input data"@,
            OrderErrors::NoSuchOperationSymbolError => "No such operation symbol"@,
        }
    }

    /// The sentence that describes the failure, for display.
    pub fn message(&self) -> (s: String)
        ensures
            s@ == self.text(),
    {
        match self {
            OrderErrors::ParseClientIdError => "Unable to parse client Id".to_owned(),
            OrderErrors::ParseOperationError => "Unable to parse operation symbol".to_owned(),
            OrderErrors::ParseSymbolError => "Unable to parse asset".to_owned(),
            OrderErrors::ParseItemPriceError => "Unable to parse price".to_owned(),
            OrderErrors::ParseItemVolumeError => "Unable to parse volume".to_owned(),
            OrderErrors::ParseInsufficentInputError => "Can't parse order item: Insufficent input data".to_owned(),
            OrderErrors::NoSuchOperationSymbolError => "No such operation symbol".to_owned(),
        }
    }
}

} // verus!
