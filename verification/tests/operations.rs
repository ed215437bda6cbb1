use candle_core::{Device, Result, Tensor};
use einops::{apply_plan, AxisOperation, CandleTensor, EinopsError, Operation};

fn int_tensor(data: Vec<i64>, shape: Vec<usize>) -> CandleTensor {
    CandleTensor::from_values(data, shape).unwrap()
}

#[test]
fn reduce_min_exact_values() {
    // v[i][j][k] = 23 - (6i + 3j + k); the minimum over axis 0 sits at i = 3.
    let data: Vec<i64> = (0..24).map(|x| 23 - x).collect();
    let t = int_tensor(data, vec![4, 2, 3]);
    let r = t.reduce_axes(&vec![(0, Operation::Min)]).unwrap();
    assert_eq!(r.shape(), vec![2, 3]);
    assert_eq!(r.to_values().unwrap(), vec![5, 4, 3, 2, 1, 0]);
}

#[test]
fn reduce_max_exact_values() {
    let data: Vec<i64> = (0..24).map(|x| 23 - x).collect();
    let t = int_tensor(data, vec![4, 2, 3]);
    let r = t.reduce_axes(&vec![(0, Operation::Max)]).unwrap();
    assert_eq!(r.shape(), vec![2, 3]);
    // the maximum over axis 0 sits at i = 0
    assert_eq!(r.to_values().unwrap(), vec![23, 22, 21, 20, 19, 18]);
}

#[test]
fn reduce_sum_matches_native_sum() {
    // Summing one axis must match the engine's own axis sum.
    let data: Vec<i64> = (0..24).collect();
    let t = int_tensor(data.clone(), vec![2, 3, 4]);
    let ours = t.reduce_axes(&vec![(1, Operation::Sum)]).unwrap();
    let native = Tensor::from_vec(data, (2usize, 3usize, 4usize), &Device::Cpu)
        .unwrap()
        .sum(1)
        .unwrap();
    assert_eq!(ours.shape(), vec![2, 4]);
    assert_eq!(
        ours.to_values().unwrap(),
        native.flatten_all().unwrap().to_vec1::<i64>().unwrap()
    );
}

#[test]
fn reduce_sum_matches_native_sum_floats() -> Result<()> {
    let native_src = Tensor::new(
        &[0.25f64, 1.5, -2.75, 3.125, 4.0, -0.5, 7.25, 0.0625, 9.5, -1.25, 11.0, 12.75],
        &Device::Cpu,
    )?
    .reshape(&[3, 4])?;
    let ours = CandleTensor::from_tensor(native_src.clone())
        .unwrap()
        .reduce_axes(&vec![(0, Operation::Sum)])
        .unwrap()
        .into_tensor()
        .to_vec1::<f64>()?;
    let native = native_src.sum(0)?.to_vec1::<f64>()?;
    assert_eq!(ours.len(), native.len());
    for (a, b) in ours.iter().zip(native.iter()) {
        assert!((a - b).abs() < 1e-12);
    }
    Ok(())
}

#[test]
fn reduce_mean_matches_native_mean() -> Result<()> {
    let native_src = Tensor::new(
        &[1.0f64, 2.0, 3.0, 4.0, 5.0, 6.0],
        &Device::Cpu,
    )?
    .reshape(&[2, 3])?;
    let ours = CandleTensor::from_tensor(native_src.clone())
        .unwrap()
        .reduce_axes(&vec![(1, Operation::Mean)])
        .unwrap()
        .into_tensor()
        .to_vec1::<f64>()?;
    let native = native_src.mean(1)?.to_vec1::<f64>()?;
    for (a, b) in ours.iter().zip(native.iter()) {
        assert!((a - b).abs() < 1e-12);
    }
    Ok(())
}

#[test]
fn reduce_pair_order_does_not_matter() {
    // Reducing axes {0, 2} with Min gives the same result whichever way the
    // list is ordered.
    let data: Vec<i64> = (0..24).map(|x| (x * 7) % 24).collect();
    let t = int_tensor(data, vec![2, 3, 4]);
    let a = t
        .reduce_axes(&vec![(0, Operation::Min), (2, Operation::Min)])
        .unwrap();
    let b = t
        .reduce_axes(&vec![(2, Operation::Min), (0, Operation::Min)])
        .unwrap();
    assert_eq!(a.shape(), vec![3]);
    assert_eq!(a.shape(), b.shape());
    assert_eq!(a.to_values().unwrap(), b.to_values().unwrap());
}

#[test]
fn reduce_prod_is_unsupported_and_source_stays_usable() {
    let t = int_tensor((0..6).collect(), vec![2, 3]);
    let err = t.reduce_axes(&vec![(0, Operation::Prod)]).unwrap_err();
    assert_eq!(err, EinopsError::UnsupportedOperation);
    // the source tensor is untouched and still usable
    assert_eq!(t.shape(), vec![2, 3]);
    assert_eq!(t.to_values().unwrap(), vec![0, 1, 2, 3, 4, 5]);
    let r = t.reduce_axes(&vec![(0, Operation::Sum)]).unwrap();
    assert_eq!(r.to_values().unwrap(), vec![3, 5, 7]);
}

#[test]
fn reduce_out_of_range_axis_is_invalid() {
    let t = int_tensor((0..6).collect(), vec![2, 3]);
    let err = t.reduce_axes(&vec![(2, Operation::Sum)]).unwrap_err();
    assert_eq!(err, EinopsError::InvalidAxis);
}

#[test]
fn transpose_exhaustive_index_mapping() {
    // out[a][b][c][d] = in[b][d][c][a] for the permutation [3, 0, 2, 1].
    let data: Vec<i64> = (0..120).collect();
    let t = int_tensor(data.clone(), vec![2, 3, 4, 5]);
    let out = t.transpose(&vec![3, 0, 2, 1]).unwrap();
    assert_eq!(out.shape(), vec![5, 2, 4, 3]);
    let values = out.to_values().unwrap();
    for a in 0..5usize {
        for b in 0..2usize {
            for c in 0..4usize {
                for d in 0..3usize {
                    let out_flat = ((a * 2 + b) * 4 + c) * 3 + d;
                    let in_flat = ((b * 3 + d) * 4 + c) * 5 + a;
                    assert_eq!(values[out_flat], data[in_flat]);
                }
            }
        }
    }
}

#[test]
fn transpose_round_trip_restores_tensor() {
    let data: Vec<i64> = (0..120).map(|x| (x * 13) % 97).collect();
    let t = int_tensor(data.clone(), vec![2, 3, 4, 5]);
    let p = vec![3, 0, 2, 1];
    // the inverse permutation q satisfies p[q[j]] == j
    let q = vec![1, 3, 2, 0];
    let round = t.transpose(&p).unwrap().transpose(&q).unwrap();
    assert_eq!(round.shape(), vec![2, 3, 4, 5]);
    assert_eq!(round.to_values().unwrap(), data);
}

#[test]
fn transpose_duplicate_index_is_invalid() {
    let t = int_tensor((0..24).collect(), vec![2, 3, 4]);
    let err = t.transpose(&vec![0, 0, 1]).unwrap_err();
    assert_eq!(err, EinopsError::InvalidPermutation);
}

#[test]
fn reshape_composes() {
    let data: Vec<i64> = (0..24).collect();
    let t = int_tensor(data.clone(), vec![4, 6]);
    let chained = t
        .reshape(&vec![2, 12])
        .unwrap()
        .reshape(&vec![3, 8])
        .unwrap();
    let direct = t.reshape(&vec![3, 8]).unwrap();
    assert_eq!(chained.shape(), direct.shape());
    assert_eq!(chained.to_values().unwrap(), direct.to_values().unwrap());
    assert_eq!(direct.to_values().unwrap(), data);
}

#[test]
fn reshape_wrong_count_is_mismatch() {
    let t = int_tensor((0..24).collect(), vec![4, 6]);
    let err = t.reshape(&vec![5, 5]).unwrap_err();
    assert_eq!(err, EinopsError::ShapeMismatch);
}

#[test]
fn add_axes_tiles_exact_values() {
    // The rank-3 block [1, 2, 3] tiled 5 x 3 times: rank equals the target,
    // the inserted axes carry the requested lengths, and each value repeats
    // with period equal to the source length.
    let t = int_tensor((0..6).collect(), vec![1, 2, 3]);
    let out = t.add_axes(5, &vec![(0, 5), (3, 3)]).unwrap();
    assert_eq!(out.shape(), vec![5, 1, 2, 3, 3]);
    let expected: Vec<i64> = vec![
        0, 1, 2, 0, 1, 2, 0, 1, 2, 3, 4, 5, 3, 4, 5, 3, 4, 5, 0, 1, 2, 0, 1, 2, 0, 1, 2, 3, 4,
        5, 3, 4, 5, 3, 4, 5, 0, 1, 2, 0, 1, 2, 0, 1, 2, 3, 4, 5, 3, 4, 5, 3, 4, 5, 0, 1, 2, 0,
        1, 2, 0, 1, 2, 3, 4, 5, 3, 4, 5, 3, 4, 5, 0, 1, 2, 0, 1, 2, 0, 1, 2, 3, 4, 5, 3, 4, 5,
        3, 4, 5,
    ];
    assert_eq!(out.to_values().unwrap(), expected);
}

#[test]
fn add_axes_rank_mismatch() {
    let t = int_tensor((0..6).collect(), vec![1, 2, 3]);
    let err = t.add_axes(6, &vec![(0, 5), (3, 3)]).unwrap_err();
    assert_eq!(err, EinopsError::RankMismatch);
}

#[test]
fn add_axes_position_out_of_range_is_invalid() {
    let t = int_tensor((0..6).collect(), vec![1, 2, 3]);
    let err = t.add_axes(5, &vec![(0, 5), (5, 3)]).unwrap_err();
    assert_eq!(err, EinopsError::InvalidAxis);
}

#[test]
fn add_axes_colliding_positions_are_invalid() {
    let t = int_tensor((0..6).collect(), vec![1, 2, 3]);
    let err = t.add_axes(5, &vec![(3, 3), (0, 5)]).unwrap_err();
    assert_eq!(err, EinopsError::InvalidAxis);
}

#[test]
fn from_values_rejects_bad_shapes() {
    assert!(CandleTensor::from_values(vec![1, 2, 3], vec![2, 2]).is_none());
    assert!(CandleTensor::from_values(vec![], vec![0, 2]).is_none());
    assert!(CandleTensor::from_values(vec![1, 2, 3, 4], vec![2, 2]).is_some());
}

#[test]
fn plan_applies_steps_in_order() {
    // reshape -> transpose -> reduce -> broadcast, threaded through one plan
    let t = int_tensor((0..24).collect(), vec![4, 6]);
    let plan = vec![
        AxisOperation::Reshape(vec![2, 3, 4]),
        AxisOperation::Transpose(vec![2, 0, 1]),
        AxisOperation::Reduce(vec![(1, Operation::Max)]),
        AxisOperation::AddAxes(3, vec![(0, 2)]),
    ];
    let out = apply_plan(&t, &plan).unwrap();
    assert_eq!(out.shape(), vec![2, 4, 3]);
    // after the reduce, entry [c][b] holds max over a of v[a][b][c] with
    // v row-major over [2, 3, 4]: max sits at a = 1.
    let mut one_tile: Vec<i64> = Vec::new();
    for c in 0..4i64 {
        for b in 0..3i64 {
            one_tile.push(12 + b * 4 + c);
        }
    }
    let mut expected = one_tile.clone();
    expected.extend(one_tile);
    assert_eq!(out.to_values().unwrap(), expected);
}

#[test]
fn plan_propagates_first_failure() {
    let t = int_tensor((0..24).collect(), vec![4, 6]);
    let plan = vec![
        AxisOperation::Reshape(vec![2, 3, 4]),
        AxisOperation::Transpose(vec![0, 0, 1]),
        AxisOperation::Reshape(vec![5, 5]),
    ];
    let err = apply_plan(&t, &plan).unwrap_err();
    assert_eq!(err, EinopsError::InvalidPermutation);
    // the source is untouched
    assert_eq!(t.shape(), vec![4, 6]);
}
