//! Checked arithmetic that reports overflow and division by zero as
//! errors.
use vstd::prelude::*;

use crate::error::ContractError;

verus! {

pub fn add_u32(a: u32, b: u32) -> (r: Result<u32, ContractError>)
    ensures
        r matches Ok(x) ==> x == a + b,
        r is Err <==> a as int + b as int > u32::MAX as int,
        r matches Err(e) ==> e is Overflow,
{
    match a.checked_add(b) {
        Some(x) => Ok(x),
        None => Err(ContractError::Overflow),
    }
}

pub fn sub_u32(a: u32, b: u32) -> (r: Result<u32, ContractError>)
    ensures
        r matches Ok(x) ==> x == a - b,
        r is Err <==> a < b,
        r matches Err(e) ==> e is Overflow,
{
    match a.checked_sub(b) {
        Some(x) => Ok(x),
        None => Err(ContractError::Overflow),
    }
}

pub fn add_u64(a: u64, b: u64) -> (r: Result<u64, ContractError>)
    ensures
        r matches Ok(x) ==> x == a + b,
        r is Err <==> a as int + b as int > u64::MAX as int,
        r matches Err(e) ==> e is Overflow,
{
    match a.checked_add(b) {
        Some(x) => Ok(x),
        None => Err(ContractError::Overflow),
    }
}

pub fn sub_u64(a: u64, b: u64) -> (r: Result<u64, ContractError>)
    ensures
        r matches Ok(x) ==> x == a - b,
        r is Err <==> a < b,
        r matches Err(e) ==> e is Overflow,
{
    match a.checked_sub(b) {
        Some(x) => Ok(x),
        None => Err(ContractError::Overflow),
    }
}

pub fn add_u128(a: u128, b: u128) -> (r: Result<u128, ContractError>)
    ensures
        r matches Ok(x) ==> x == a + b,
        r is Err <==> a as int + b as int > u128::MAX as int,
        r matches Err(e) ==> e is Overflow,
{
    match a.checked_add(b) {
        Some(x) => Ok(x),
        None => Err(ContractError::Overflow),
    }
}

pub fn sub_u128(a: u128, b: u128) -> (r: Result<u128, ContractError>)
    ensures
        r matches Ok(x) ==> x == a - b,
        r is Err <==> a < b,
        r matches Err(e) ==> e is Overflow,
{
    match a.checked_sub(b) {
        Some(x) => Ok(x),
        None => Err(ContractError::Overflow),
    }
}

pub fn mul_u128(a: u128, b: u128) -> (r: Result<u128, ContractError>)
    ensures
        r matches Ok(x) ==> x == a * b,
        r is Err <==> a as int * b as int > u128::MAX as int,
        r matches Err(e) ==> e is Overflow,
{
    match a.checked_mul(b) {
        Some(x) => Ok(x),
        None => Err(ContractError::Overflow),
    }
}

pub fn div_u128(a: u128, b: u128) -> (r: Result<u128, ContractError>)
    ensures
        r matches Ok(x) ==> x == a / b,
        r is Err <==> b == 0,
        r matches Err(e) ==> e is DivideByZero,
{
    if b == 0 {
        Err(ContractError::DivideByZero)
    } else {
        Ok(a / b)
    }
}

} // verus!
